//! Reading a finished buffer: tables through their vtables, vectors, strings and
//! structs, each addressed by its index in the buffer. Nothing is validated: each
//! read requires that the bytes it touches lie inside the buffer.
use vstd::prelude::*;
use crate::endian::{Endian, le_decode};
use crate::builder::{OrdTable, SOffset, UOffset, VOffset};
use core::cmp::Ordering;

verus! {

/// The 16-bit little-endian number at index `i`.
pub open spec fn read_u16(s: Seq<u8>, i: int) -> nat {
    le_decode(s.subrange(i, i + 2))
}

/// The 32-bit little-endian number at index `i`.
pub open spec fn read_u32(s: Seq<u8>, i: int) -> nat {
    le_decode(s.subrange(i, i + 4))
}

/// The index of the vtable of the table at index `t`.
pub open spec fn vtable_index(s: Seq<u8>, t: int) -> int {
    t - <SOffset as Endian>::from_le_bytes(s.subrange(t, t + 4))
}

/// The table at `t` and its vtable's size lie inside `s`, and so does the slot
/// `field` where the vtable has it.
pub open spec fn table_readable(s: Seq<u8>, t: int, field: int) -> bool {
    let vt = vtable_index(s, t);
    &&& 0 <= t && t + 4 <= s.len()
    &&& 0 <= vt && vt + 2 <= s.len()
    &&& field < read_u16(s, vt) ==> vt + field + 2 <= s.len()
}

/// The slot `field` of the vtable of the table at `t`: the field's position from
/// the table's start, or 0 where the table does not have the field.
pub open spec fn field_slot(s: Seq<u8>, t: int, field: int) -> nat {
    let vt = vtable_index(s, t);
    if 0 <= field < read_u16(s, vt) {
        read_u16(s, vt + field)
    } else {
        0
    }
}

/// The index that the offset word at index `i` refers to.
pub open spec fn deref(s: Seq<u8>, i: int) -> int {
    i + read_u32(s, i)
}

/// The value of type `T` stored at index `i`.
pub open spec fn scalar_at<T: Endian>(s: Seq<u8>, i: int) -> T {
    T::from_le_bytes(s.subrange(i, i + T::width()))
}

/// A table, at index `pos` of a buffer.
#[derive(Clone, Copy)]
pub struct Table {
    pub pos: usize,
}

/// A struct, at index `pos` of a buffer.
#[derive(Clone, Copy)]
pub struct Struct {
    pub pos: usize,
}

/// A vector: its 32-bit length is at index `pos` of a buffer, its elements follow.
#[derive(Clone, Copy)]
pub struct Vector {
    pub pos: usize,
}

/// A string is a vector of bytes followed by a NUL byte.
pub type Str = Vector;

/// Walks the elements of a vector of scalars.
#[derive(Clone, Copy)]
pub struct VecIter {
    pub vec: Vector,
    pub idx: usize,
}

fn read_u16_at(buf: &[u8], i: usize) -> (r: u16)
    requires
        i + 2 <= buf@.len(),
    ensures
        r as nat == read_u16(buf@, i as int),
{
    proof {
        crate::endian::lemma_le_decode_bound(buf@.subrange(i as int, i + 2));
        reveal_with_fuel(vstd::arithmetic::power::pow, 3);
    }
    crate::endian::decode_le(buf, i, 2) as u16
}

fn read_u32_at(buf: &[u8], i: usize) -> (r: u32)
    requires
        i + 4 <= buf@.len(),
    ensures
        r as nat == read_u32(buf@, i as int),
{
    proof {
        crate::endian::lemma_le_decode_bound(buf@.subrange(i as int, i + 4));
        reveal_with_fuel(vstd::arithmetic::power::pow, 5);
    }
    crate::endian::decode_le(buf, i, 4) as u32
}

/// The root table of a finished buffer: the offset word at its start refers to it.
pub fn get_root(buf: &[u8]) -> (r: Table)
    requires
        4 <= buf@.len(),
        deref(buf@, 0) <= buf@.len(),
    ensures
        r.pos == deref(buf@, 0),
{
    let off = read_u32_at(buf, 0);
    Table { pos: off as usize }
}

impl Table {
    pub fn get_optional_field_offset(&self, buf: &[u8], field: VOffset) -> (r: Option<VOffset>)
        requires
            table_readable(buf@, self.pos as int, field as int),
        ensures
            r == if field_slot(buf@, self.pos as int, field as int) == 0 {
                None::<VOffset>
            } else {
                Some(field_slot(buf@, self.pos as int, field as int) as VOffset)
            },
            field_slot(buf@, self.pos as int, field as int) < 0x10000,
    {
        let _buf_len = buf.len();
        let link = <SOffset as Endian>::read_le(buf, self.pos);
        let vtable: usize = if link >= 0 {
            self.pos - link as usize
        } else {
            self.pos + (0i64 - link as i64) as usize
        };
        assert(vtable == vtable_index(buf@, self.pos as int));
        let vtsize = read_u16_at(buf, vtable);
        if field < vtsize {
            let voff = read_u16_at(buf, vtable + field as usize);
            if voff != 0 {
                return Some(voff);
            }
        }
        None
    }

    /// The scalar field `field`, or `def` where the table does not have it.
    pub fn get_field<T: Endian>(&self, buf: &[u8], field: VOffset, def: T) -> (r: T)
        requires
            table_readable(buf@, self.pos as int, field as int),
            field_slot(buf@, self.pos as int, field as int) != 0 ==> self.pos + field_slot(
                buf@,
                self.pos as int,
                field as int,
            ) + T::width() <= buf@.len(),
        ensures
            r == if field_slot(buf@, self.pos as int, field as int) == 0 {
                def
            } else {
                scalar_at::<T>(buf@, self.pos + field_slot(buf@, self.pos as int, field as int))
            },
    {
        let _buf_len = buf.len();
        match self.get_optional_field_offset(buf, field) {
            None => def,
            Some(voffs) => T::read_le(buf, self.pos + voffs as usize),
        }
    }

    /// The index that the offset field `field` refers to, where the table has it.
    pub fn get_ref(&self, buf: &[u8], field: VOffset) -> (r: Option<usize>)
        requires
            table_readable(buf@, self.pos as int, field as int),
            field_slot(buf@, self.pos as int, field as int) != 0 ==> self.pos + field_slot(
                buf@,
                self.pos as int,
                field as int,
            ) + 4 <= buf@.len(),
            field_slot(buf@, self.pos as int, field as int) != 0 ==> deref(
                buf@,
                self.pos + field_slot(buf@, self.pos as int, field as int),
            ) <= buf@.len(),
        ensures
            r == if field_slot(buf@, self.pos as int, field as int) == 0 {
                None::<usize>
            } else {
                Some(
                    deref(buf@, self.pos + field_slot(buf@, self.pos as int, field as int)) as usize,
                )
            },
    {
        let _buf_len = buf.len();
        match self.get_optional_field_offset(buf, field) {
            None => None,
            Some(voffs) => {
                let p = self.pos + voffs as usize;
                let offs = read_u32_at(buf, p);
                Some(p + offs as usize)
            },
        }
    }

    /// The struct stored inline as field `field`, where the table has it.
    pub fn get_struct(&self, buf: &[u8], field: VOffset) -> (r: Option<Struct>)
        requires
            table_readable(buf@, self.pos as int, field as int),
            self.pos + field_slot(buf@, self.pos as int, field as int) <= buf@.len(),
        ensures
            r == if field_slot(buf@, self.pos as int, field as int) == 0 {
                None::<Struct>
            } else {
                Some(
                    Struct {
                        pos: (self.pos + field_slot(buf@, self.pos as int, field as int)) as usize,
                    },
                )
            },
    {
        let _buf_len = buf.len();
        match self.get_optional_field_offset(buf, field) {
            None => None,
            Some(voffs) => Some(Struct { pos: self.pos + voffs as usize }),
        }
    }

    /// Overwrites the scalar field `field`, which the table must have.
    pub fn set_field<T: Endian>(&self, buf: &mut [u8], field: VOffset, val: T)
        requires
            table_readable(old(buf)@, self.pos as int, field as int),
            field_slot(old(buf)@, self.pos as int, field as int) != 0,
            self.pos + field_slot(old(buf)@, self.pos as int, field as int) + T::width() <= old(
                buf,
            )@.len(),
        ensures
            ({
                let at = self.pos + field_slot(old(buf)@, self.pos as int, field as int);
                final(buf)@ == old(buf)@.subrange(0, at) + val.le_bytes() + old(buf)@.subrange(
                    at + T::width(),
                    old(buf)@.len() as int,
                )
            }),
    {
        let _buf_len = buf.len();
        let voffs = match self.get_optional_field_offset(buf, field) {
            Some(v) => v,
            None => 0,
        };
        let at = self.pos + voffs as usize;
        let bytes = val.to_le_vec();
        proof {
            val.lemma_round_trip();
        }
        let mut i: usize = 0;
        while i < bytes.len()
            invariant
                bytes@ == val.le_bytes(),
                bytes@.len() == T::width(),
                at == self.pos + field_slot(old(buf)@, self.pos as int, field as int),
                at + T::width() <= old(buf)@.len(),
                buf@.len() == old(buf)@.len(),
                _buf_len == old(buf)@.len(),
                i <= bytes@.len(),
                forall|j: int|
                    0 <= j < buf@.len() ==> #[trigger] buf@[j] == if at <= j < at + i {
                        bytes@[j - at]
                    } else {
                        old(buf)@[j]
                    },
            decreases bytes@.len() - i,
        {
            buf[at + i] = bytes[i];
            i = i + 1;
        }
        assert(buf@ =~= old(buf)@.subrange(0, at as int) + val.le_bytes() + old(buf)@.subrange(
            at + T::width(),
            old(buf)@.len() as int,
        ));
    }

    /// Whether the table has the field `field`.
    pub fn check_field(&self, buf: &[u8], field: VOffset) -> (r: bool)
        requires
            table_readable(buf@, self.pos as int, field as int),
        ensures
            r == (field_slot(buf@, self.pos as int, field as int) != 0),
    {
        self.get_optional_field_offset(buf, field).is_some()
    }
}

impl Struct {
    /// The scalar at `off` bytes into the struct.
    pub fn get_field<T: Endian>(&self, buf: &[u8], off: UOffset) -> (r: T)
        requires
            self.pos + off + T::width() <= buf@.len(),
        ensures
            r == scalar_at::<T>(buf@, self.pos + off),
    {
        let _buf_len = buf.len();
        T::read_le(buf, self.pos + off as usize)
    }

    /// The index that the offset word at `off` bytes into the struct refers to.
    pub fn get_ref(&self, buf: &[u8], off: UOffset) -> (r: usize)
        requires
            self.pos + off + 4 <= buf@.len(),
            deref(buf@, self.pos + off) <= buf@.len(),
        ensures
            r == deref(buf@, self.pos + off),
    {
        let _buf_len = buf.len();
        let p = self.pos + off as usize;
        p + read_u32_at(buf, p) as usize
    }

    /// The struct nested at `off` bytes into this one.
    pub fn get_struct(&self, buf: &[u8], off: UOffset) -> (r: Struct)
        requires
            self.pos + off <= buf@.len(),
        ensures
            r.pos == self.pos + off,
    {
        let _buf_len = buf.len();
        Struct { pos: self.pos + off as usize }
    }
}

impl Vector {
    pub fn len(&self, buf: &[u8]) -> (r: usize)
        requires
            self.pos + 4 <= buf@.len(),
        ensures
            r == read_u32(buf@, self.pos as int),
    {
        read_u32_at(buf, self.pos) as usize
    }

    /// Element `idx` of a vector of scalars, if there is one.
    pub fn get<T: Endian>(&self, buf: &[u8], idx: usize) -> (r: Option<T>)
        requires
            self.pos + 4 + read_u32(buf@, self.pos as int) * T::width() <= buf@.len(),
        ensures
            r == if idx < read_u32(buf@, self.pos as int) {
                Some(scalar_at::<T>(buf@, self.pos + 4 + idx * T::width()))
            } else {
                None::<T>
            },
    {
        let _buf_len = buf.len();
        let n = self.len(buf);
        if idx < n {
            let w = T::size();
            assert(idx * w + w <= n * w) by (nonlinear_arith)
                requires
                    idx < n,
            ;
            Some(T::read_le(buf, self.pos + 4 + idx * w))
        } else {
            None
        }
    }

    /// The index that element `idx` of a vector of offsets refers to, if there is
    /// such an element.
    pub fn get_ref(&self, buf: &[u8], idx: usize) -> (r: Option<usize>)
        requires
            self.pos + 4 + read_u32(buf@, self.pos as int) * 4 <= buf@.len(),
            idx < read_u32(buf@, self.pos as int) ==> deref(buf@, self.pos + 4 + idx * 4)
                <= buf@.len(),
        ensures
            r == if idx < read_u32(buf@, self.pos as int) {
                Some(deref(buf@, self.pos + 4 + idx * 4) as usize)
            } else {
                None::<usize>
            },
    {
        let _buf_len = buf.len();
        let n = self.len(buf);
        if idx < n {
            assert(idx * 4 + 4 <= n * 4) by (nonlinear_arith)
                requires
                    idx < n,
            ;
            let e = self.pos + 4 + idx * 4;
            let off = read_u32_at(buf, e);
            Some(e + off as usize)
        } else {
            None
        }
    }

    /// The bytes of a string, without its NUL terminator.
    pub fn as_bytes(&self, buf: &[u8]) -> (r: Vec<u8>)
        requires
            self.pos + 4 + read_u32(buf@, self.pos as int) <= buf@.len(),
        ensures
            r@ == buf@.subrange(self.pos + 4, self.pos + 4 + read_u32(buf@, self.pos as int)),
    {
        let _buf_len = buf.len();
        let n = self.len(buf);
        let start = self.pos + 4;
        let mut r: Vec<u8> = Vec::new();
        let mut i: usize = 0;
        while i < n
            invariant
                i <= n,
                n == read_u32(buf@, self.pos as int),
                start == self.pos + 4,
                start + n <= buf@.len(),
                _buf_len == buf@.len(),
                r@ == buf@.subrange(start as int, start + i),
            decreases n - i,
        {
            r.push(buf[start + i]);
            i = i + 1;
            assert(r@ =~= buf@.subrange(start as int, start + i));
        }
        r
    }

    pub fn iter(&self) -> (r: VecIter)
        ensures
            r.vec == *self,
            r.idx == 0,
    {
        VecIter { vec: *self, idx: 0 }
    }
}

impl VecIter {
    /// The next element of a vector of scalars, if any is left.
    pub fn next<T: Endian>(&mut self, buf: &[u8]) -> (r: Option<T>)
        requires
            old(self).vec.pos + 4 + read_u32(buf@, old(self).vec.pos as int) * T::width()
                <= buf@.len(),
            old(self).idx < usize::MAX,
        ensures
            final(self).vec == old(self).vec,
            final(self).idx == old(self).idx + 1,
            r == if old(self).idx < read_u32(buf@, old(self).vec.pos as int) {
                Some(scalar_at::<T>(buf@, old(self).vec.pos + 4 + old(self).idx * T::width()))
            } else {
                None::<T>
            },
    {
        let idx = self.idx;
        self.idx = idx + 1;
        self.vec.get(buf, idx)
    }
}

/// `a` comes no later than `b` in byte-wise lexicographic order.
pub open spec fn lex_le(a: Seq<u8>, b: Seq<u8>) -> bool
    decreases a.len(),
{
    if a.len() == 0 {
        true
    } else if b.len() == 0 {
        false
    } else if a[0] != b[0] {
        a[0] < b[0]
    } else {
        lex_le(a.drop_first(), b.drop_first())
    }
}

pub proof fn lemma_lex_total(a: Seq<u8>, b: Seq<u8>)
    ensures
        lex_le(a, b) || lex_le(b, a),
    decreases a.len(),
{
    if a.len() > 0 && b.len() > 0 && a[0] == b[0] {
        lemma_lex_total(a.drop_first(), b.drop_first());
    }
}

pub proof fn lemma_lex_trans(a: Seq<u8>, b: Seq<u8>, c: Seq<u8>)
    requires
        lex_le(a, b),
        lex_le(b, c),
    ensures
        lex_le(a, c),
    decreases a.len(),
{
    if a.len() > 0 && b.len() > 0 && c.len() > 0 && a[0] == b[0] && b[0] == c[0] {
        lemma_lex_trans(a.drop_first(), b.drop_first(), c.drop_first());
    }
}

/// The table at `t` has the string field `field`, and the string lies inside `s`.
pub open spec fn key_readable(s: Seq<u8>, t: int, field: int) -> bool {
    let p = t + field_slot(s, t, field);
    &&& table_readable(s, t, field)
    &&& field_slot(s, t, field) != 0
    &&& p + 4 <= s.len()
    &&& deref(s, p) + 4 <= s.len()
    &&& deref(s, p) + 4 + read_u32(s, deref(s, p)) <= s.len()
}

/// The string in field `field` of the table at `t`, or the empty string where the
/// table has no readable such field.
pub open spec fn string_key(s: Seq<u8>, t: int, field: int) -> Seq<u8> {
    if key_readable(s, t, field) {
        let sp = deref(s, t + field_slot(s, t, field));
        s.subrange(sp + 4, sp + 4 + read_u32(s, sp))
    } else {
        Seq::empty()
    }
}

/// Reads the string in field `field` of the table at `t`, checking every index
/// on the way; where one falls outside the buffer the key is empty.
pub fn read_string_key(buf: &[u8], t: usize, field: VOffset) -> (r: Vec<u8>)
    ensures
        r@ == string_key(buf@, t as int, field as int),
{
    let len = buf.len();
    if len < 4 || t > len - 4 {
        return Vec::new();
    }
    let link = <SOffset as Endian>::read_le(buf, t);
    let vt: usize;
    if link >= 0 {
        if link as usize > t {
            return Vec::new();
        }
        vt = t - link as usize;
    } else {
        let d = (0i64 - link as i64) as usize;
        if d > len - t {
            return Vec::new();
        }
        vt = t + d;
    }
    assert(vt == vtable_index(buf@, t as int));
    if vt > len - 2 || len < 2 {
        return Vec::new();
    }
    let vtsize = read_u16_at(buf, vt);
    if field >= vtsize {
        return Vec::new();
    }
    if field as usize > len - 2 - vt {
        return Vec::new();
    }
    let slot = read_u16_at(buf, vt + field as usize);
    if slot == 0 {
        return Vec::new();
    }
    if slot as usize > len - 4 - t {
        return Vec::new();
    }
    let p = t + slot as usize;
    let off = read_u32_at(buf, p);
    if off as usize > len - 4 - p {
        return Vec::new();
    }
    let sp = p + off as usize;
    let n = read_u32_at(buf, sp);
    if n as usize > len - 4 - sp {
        return Vec::new();
    }
    Vector { pos: sp }.as_bytes(buf)
}

/// Compares two byte strings in lexicographic order.
pub fn compare_bytes(a: &Vec<u8>, b: &Vec<u8>) -> (r: Ordering)
    ensures
        (r == Ordering::Greater) == !lex_le(a@, b@),
{
    let mut i: usize = 0;
    assert(a@.skip(0) =~= a@);
    assert(b@.skip(0) =~= b@);
    while i < a.len() && i < b.len()
        invariant
            i <= a@.len(),
            i <= b@.len(),
            lex_le(a@, b@) == lex_le(a@.skip(i as int), b@.skip(i as int)),
        decreases a@.len() - i,
    {
        assert(a@.skip(i as int)[0] == a@[i as int]);
        assert(b@.skip(i as int)[0] == b@[i as int]);
        if a[i] != b[i] {
            if a[i] < b[i] {
                return Ordering::Less;
            } else {
                return Ordering::Greater;
            }
        }
        assert(a@.skip(i as int).drop_first() =~= a@.skip(i + 1));
        assert(b@.skip(i as int).drop_first() =~= b@.skip(i + 1));
        i = i + 1;
    }
    if a.len() < b.len() {
        assert(a@.skip(i as int).len() == 0);
        Ordering::Less
    } else if a.len() == b.len() {
        assert(a@.skip(i as int).len() == 0);
        Ordering::Equal
    } else {
        assert(b@.skip(i as int).len() == 0);
        Ordering::Greater
    }
}

/// Tables ordered by the string in their field `FIELD`, byte by byte; a table
/// without a readable key string sorts as if its key were empty.
#[derive(Clone, Copy)]
pub struct StringKey<const FIELD: u16>;

impl<const FIELD: u16> OrdTable for StringKey<FIELD> {
    open spec fn key_le(bytes: Seq<u8>, a: int, b: int) -> bool {
        lex_le(string_key(bytes, a, FIELD as int), string_key(bytes, b, FIELD as int))
    }

    fn key_cmp(buf: &[u8], a: usize, b: usize) -> (r: Ordering) {
        let ka = read_string_key(buf, a, FIELD);
        let kb = read_string_key(buf, b, FIELD);
        compare_bytes(&ka, &kb)
    }

    proof fn lemma_key_total(bytes: Seq<u8>, a: int, b: int) {
        lemma_lex_total(string_key(bytes, a, FIELD as int), string_key(bytes, b, FIELD as int));
    }

    proof fn lemma_key_trans(bytes: Seq<u8>, a: int, b: int, c: int) {
        lemma_lex_trans(
            string_key(bytes, a, FIELD as int),
            string_key(bytes, b, FIELD as int),
            string_key(bytes, c, FIELD as int),
        );
    }
}

} // verus!

//! The builder: lays out tables, vtables, strings, vectors and structs in a
//! reverse-growing arena and finishes them into a buffer with a root offset.
use vstd::prelude::*;
use vstd::string::StringSliceAdditionalSpecFns;
use core::marker::PhantomData;
use crate::downward::{VecDownward, zeros, MAX_BUFFER_SIZE};
use crate::endian::{Endian, le_encode};
use crate::reader::{Str, Vector};
use core::cmp::Ordering;

verus! {

/// An unsigned offset: the forward distance from the offset word to its referent.
pub type UOffset = u32;

/// A signed offset: links a table to its vtable.
pub type SOffset = i32;

/// A vtable offset: a field's position from the start of its table.
pub type VOffset = u16;

/// `n` is a power of two.
pub open spec fn is_pow2(n: nat) -> bool
    decreases n,
{
    if n <= 1 {
        n == 1
    } else {
        n % 2 == 0 && is_pow2(n / 2)
    }
}

/// The number of zero bytes that bring `size` up to a multiple of `align`.
pub open spec fn padding(size: nat, align: nat) -> nat {
    if align == 0 {
        0
    } else {
        ((align - size % align) % (align as int)) as nat
    }
}

/// Relies on `PhantomData::clone`, which the derived `Clone` of `Offset` calls; a
/// `PhantomData` holds no data, so nothing is claimed of the result.
pub assume_specification<T: core::marker::PointeeSized>[ <PhantomData<T> as Clone>::clone ](
    _0: &PhantomData<T>,
) -> PhantomData<T>;

/// The position of a written object, as its distance from the end of the buffer.
/// The type parameter records what the object is.
#[derive(Clone, Copy)]
pub struct Offset<T> {
    inner: UOffset,
    _t: PhantomData<T>,
}

impl<T> View for Offset<T> {
    type V = u32;

    closed spec fn view(&self) -> u32 {
        self.inner
    }
}

impl<T> Offset<T> {
    pub fn new(o: UOffset) -> (r: Offset<T>)
        ensures
            r@ == o,
    {
        Offset { inner: o, _t: PhantomData }
    }

    pub fn value(&self) -> (r: UOffset)
        ensures
            r == self@,
    {
        self.inner
    }
}

impl<T> PartialEq for Offset<T> {
    fn eq(&self, other: &Offset<T>) -> (r: bool) {
        self.inner == other.inner
    }
}

impl<T> vstd::std_specs::cmp::PartialEqSpecImpl for Offset<T> {
    open spec fn obeys_eq_spec() -> bool {
        true
    }

    open spec fn eq_spec(&self, other: &Offset<T>) -> bool {
        self@ == other@
    }
}

/// A field of the table being built: its vtable slot and where its value was written.
#[derive(Clone, Copy)]
pub struct FieldLoc {
    pub off: UOffset,
    pub id: VOffset,
}

/// Tables that are ordered by a key field, for vectors of tables sorted by key.
pub trait OrdTable {
    /// The table at index `a` of `bytes` has a key no greater than the one at `b`.
    spec fn key_le(bytes: Seq<u8>, a: int, b: int) -> bool;

    /// Compares the keys of the tables at indices `a` and `b` of `buf`.
    fn key_cmp(buf: &[u8], a: usize, b: usize) -> (r: Ordering)
        requires
            a < buf@.len(),
            b < buf@.len(),
        ensures
            (r == Ordering::Greater) == !Self::key_le(buf@, a as int, b as int),
    ;

    /// Any two keys are ordered one way or the other.
    proof fn lemma_key_total(bytes: Seq<u8>, a: int, b: int)
        ensures
            Self::key_le(bytes, a, b) || Self::key_le(bytes, b, a),
    ;

    /// The key order is transitive.
    proof fn lemma_key_trans(bytes: Seq<u8>, a: int, b: int, c: int)
        requires
            Self::key_le(bytes, a, b),
            Self::key_le(bytes, b, c),
        ensures
            Self::key_le(bytes, a, c),
    ;
}

/// The tables that the offsets `v` refer to, in a buffer of bytes `bytes`, are in
/// non-decreasing key order.
pub open spec fn sorted_by_key<T: OrdTable>(bytes: Seq<u8>, v: Seq<u32>) -> bool {
    forall|k: int|
        0 <= k < v.len() - 1 ==> T::key_le(
            bytes,
            bytes.len() - #[trigger] v[k],
            bytes.len() - v[k + 1],
        )
}

/// What a builder holds, as values.
pub struct BuilderModel {
    /// The bytes written so far; the last byte is at distance 1 from the end.
    pub bytes: Seq<u8>,
    /// The fields of the table being built, in the order they were added.
    pub fields: Seq<FieldLoc>,
    /// Positions of the vtables written so far, as distances from the end.
    pub vtables: Seq<u32>,
    pub min_align: nat,
    pub force_defaults: bool,
}

/// The vtable slot of a field, or 0 where no field of the table has that id; the
/// last field added with an id wins.
pub open spec fn slot_value(fields: Seq<FieldLoc>, id: int, table_pos: int) -> int
    decreases fields.len(),
{
    if fields.len() == 0 {
        0
    } else if fields.last().id == id {
        table_pos - fields.last().off
    } else {
        slot_value(fields.drop_last(), id, table_pos)
    }
}

/// The slot area of a vtable with `num_fields` slots, slot `i` belonging to the
/// field with id `4 + 2 * i`.
pub open spec fn slot_bytes(fields: Seq<FieldLoc>, num_fields: nat, table_pos: int) -> Seq<u8> {
    Seq::new(
        num_fields * 2,
        |j: int| le_encode(slot_value(fields, 4 + 2 * (j / 2), table_pos) as nat, 2)[j % 2],
    )
}

/// A vtable at distance `p` from the end of `bytes` has the bytes `vt`.
pub open spec fn vtable_at(bytes: Seq<u8>, p: int, vt: Seq<u8>) -> bool {
    vt.len() <= p <= bytes.len() && bytes.subrange(bytes.len() - p, bytes.len() - p + vt.len())
        == vt
}

/// The index of the first position in `pool` that holds the vtable `vt`.
pub open spec fn find_vtable(bytes: Seq<u8>, pool: Seq<u32>, vt: Seq<u8>) -> Option<int>
    decreases pool.len(),
{
    if pool.len() == 0 {
        None
    } else {
        match find_vtable(bytes, pool.drop_last(), vt) {
            Some(i) => Some(i),
            None => if vtable_at(bytes, pool.last() as int, vt) {
                Some(pool.len() - 1)
            } else {
                None
            },
        }
    }
}

pub open spec fn max_nat(a: nat, b: nat) -> nat {
    if a >= b {
        a
    } else {
        b
    }
}

impl BuilderModel {
    pub open spec fn empty(force_defaults: bool) -> BuilderModel {
        BuilderModel {
            bytes: Seq::empty(),
            fields: Seq::empty(),
            vtables: Seq::empty(),
            min_align: 1,
            force_defaults,
        }
    }

    pub open spec fn size(self) -> nat {
        self.bytes.len()
    }

    pub open spec fn push_bytes(self, dat: Seq<u8>) -> BuilderModel {
        BuilderModel { bytes: dat + self.bytes, ..self }
    }

    pub open spec fn pad(self, n: nat) -> BuilderModel {
        self.push_bytes(zeros(n))
    }

    pub open spec fn pop_bytes(self, n: nat) -> BuilderModel {
        BuilderModel { bytes: self.bytes.subrange(n as int, self.bytes.len() as int), ..self }
    }

    pub open spec fn align(self, a: nat) -> BuilderModel {
        BuilderModel {
            min_align: max_nat(self.min_align, a),
            ..self.pad(padding(self.size(), a))
        }
    }

    pub open spec fn pre_align(self, len: nat, a: nat) -> BuilderModel {
        BuilderModel {
            min_align: max_nat(self.min_align, a),
            ..self.pad(padding(self.size() + len, a))
        }
    }

    pub open spec fn push_scalar<T: Endian>(self, x: T) -> BuilderModel {
        self.align(T::width()).push_bytes(x.le_bytes())
    }

    /// The value of an offset to `target` written next, after alignment.
    pub open spec fn refer_value(self, target: nat) -> nat {
        (self.align(4).size() + 4 - target) as nat
    }

    pub open spec fn track_field(self, id: VOffset, off: UOffset) -> BuilderModel {
        BuilderModel { fields: self.fields.push(FieldLoc { off, id }), ..self }
    }

    pub open spec fn add_scalar<T: Endian>(self, id: VOffset, x: T, def: T) -> BuilderModel {
        if x == def && !self.force_defaults {
            self
        } else {
            let m = self.push_scalar(x);
            m.track_field(id, m.size() as u32)
        }
    }

    pub open spec fn add_offset(self, id: VOffset, off: UOffset) -> BuilderModel {
        if off == 0 {
            self
        } else {
            let m = self.align(4);
            m.add_scalar(id, self.refer_value(off as nat) as u32, 0u32)
        }
    }

    pub open spec fn add_struct(self, id: VOffset, dat: Seq<u8>, a: nat) -> BuilderModel {
        let m = self.align(a).push_bytes(dat);
        m.track_field(id, m.size() as u32)
    }

    /// Where the table that `end_table` writes starts, as a distance from the end.
    pub open spec fn table_pos(self) -> nat {
        self.size() + padding(self.size(), 4) + 4
    }

    /// The vtable that `end_table(start, num_fields)` gives the table being built.
    pub open spec fn vtable_bytes(self, start: nat, num_fields: nat) -> Seq<u8> {
        le_encode((num_fields + 2) * 2, 2) + le_encode((self.table_pos() - start) as nat, 2)
            + slot_bytes(self.fields, num_fields, self.table_pos() as int)
    }

    /// What `end_table` needs: fields with distinct ids inside the vtable, written
    /// before the table and close enough to it for a 16-bit slot.
    pub open spec fn can_end_table(self, start: nat, num_fields: nat) -> bool {
        &&& start <= self.size()
        &&& self.table_pos() - start < 0x10000
        &&& num_fields <= 0x7ffd
        &&& self.table_pos() + (num_fields + 2) * 2 <= MAX_BUFFER_SIZE
        &&& forall|i: int|
            0 <= i < self.fields.len() ==> {
                let f = #[trigger] self.fields[i];
                &&& f.id % 2 == 0
                &&& 4 <= f.id < (num_fields + 2) * 2
                &&& f.off <= self.size()
                &&& self.table_pos() - f.off < 0x10000
            }
        &&& forall|i: int, j: int|
            0 <= i < j < self.fields.len() ==> #[trigger] self.fields[i].id
                != #[trigger] self.fields[j].id
    }

    /// The vtable position that the table written by `end_table` links to.
    pub open spec fn table_vtable(self, start: nat, num_fields: nat) -> nat {
        let vt = self.vtable_bytes(start, num_fields);
        match find_vtable(self.bytes, self.vtables, vt) {
            Some(i) => self.vtables[i] as nat,
            None => self.table_pos() + vt.len(),
        }
    }

    pub open spec fn end_table(self, start: nat, num_fields: nat) -> BuilderModel {
        let vt = self.vtable_bytes(start, num_fields);
        let link = (self.table_vtable(start, num_fields) - self.table_pos()) as i32;
        let table = link.le_bytes() + zeros(padding(self.size(), 4)) + self.bytes;
        BuilderModel {
            bytes: match find_vtable(self.bytes, self.vtables, vt) {
                Some(i) => table,
                None => vt + table,
            },
            fields: Seq::empty(),
            vtables: match find_vtable(self.bytes, self.vtables, vt) {
                Some(i) => self.vtables,
                None => self.vtables.push(self.table_vtable(start, num_fields) as u32),
            },
            min_align: max_nat(self.min_align, 4),
            force_defaults: self.force_defaults,
        }
    }

    pub open spec fn start_vector(self, len: nat, elem_size: nat) -> BuilderModel {
        self.pre_align(len * elem_size, 4).pre_align(len * elem_size, elem_size)
    }

    /// Pushes the scalars of `v`, the last first, so that they read forward.
    pub open spec fn push_scalars_rev<T: Endian>(self, v: Seq<T>) -> BuilderModel
        decreases v.len(),
    {
        if v.len() == 0 {
            self
        } else {
            self.push_scalar(v.last()).push_scalars_rev(v.drop_last())
        }
    }

    pub open spec fn create_vector<T: Endian>(self, v: Seq<T>) -> BuilderModel {
        self.start_vector(v.len(), T::width()).push_scalars_rev(v).push_scalar(v.len() as u32)
    }

    /// Writes an offset word that refers to `target`.
    pub open spec fn push_offset(self, target: nat) -> BuilderModel {
        self.align(4).push_scalar(self.refer_value(target) as u32)
    }

    /// Pushes offset words referring to the positions in `v`, the last first.
    pub open spec fn push_offsets_rev(self, v: Seq<u32>) -> BuilderModel
        decreases v.len(),
    {
        if v.len() == 0 {
            self
        } else {
            self.push_offset(v.last() as nat).push_offsets_rev(v.drop_last())
        }
    }

    pub open spec fn create_vector_of_offsets(self, v: Seq<u32>) -> BuilderModel {
        self.start_vector(v.len(), 4).push_offsets_rev(v).push_scalar(v.len() as u32)
    }

    pub open spec fn finish(self, root: nat) -> BuilderModel {
        let m = self.pre_align(4, self.min_align);
        m.align(4).push_scalar(m.refer_value(root) as u32)
    }
}

pub struct FlatBufferBuilder {
    buf: VecDownward,
    offset_buf: Vec<FieldLoc>,
    vtables: Vec<UOffset>,
    min_align: usize,
    force_defaults: bool,
}

impl View for FlatBufferBuilder {
    type V = BuilderModel;

    closed spec fn view(&self) -> BuilderModel {
        BuilderModel {
            bytes: self.buf@,
            fields: self.offset_buf@,
            vtables: self.vtables@,
            min_align: self.min_align as nat,
            force_defaults: self.force_defaults,
        }
    }
}

/// The vtable offset of the field with index `field_id`.
pub fn field_index_to_offset(field_id: VOffset) -> (r: VOffset)
    requires
        field_id <= 0x7ffd,
    ensures
        r == (field_id + 2) * 2,
{
    let fixed_fields: VOffset = 2;
    (field_id + fixed_fields) * 2
}

/// The number of zero bytes that bring `buf_size` up to a multiple of `scalar_size`.
pub fn padding_bytes(buf_size: usize, scalar_size: usize) -> (r: usize)
    requires
        scalar_size > 0,
    ensures
        r == padding(buf_size as nat, scalar_size as nat),
        r < scalar_size,
{
    (scalar_size - buf_size % scalar_size) % scalar_size
}

/// Padding brings the size to a multiple of the alignment, and is less than it.
pub proof fn lemma_padding(size: nat, a: nat)
    requires
        a > 0,
    ensures
        (size + padding(size, a)) % a == 0,
        padding(size, a) < a,
{
    let r = size % a;
    let q = size / a;
    vstd::arithmetic::div_mod::lemma_fundamental_div_mod(size as int, a as int);
    if r == 0 {
        assert(padding(size, a) == 0) by {
            vstd::arithmetic::div_mod::lemma_mod_self_0(a as int);
        }
    } else {
        assert(padding(size, a) == a - r) by {
            vstd::arithmetic::div_mod::lemma_small_mod((a - r) as nat, a);
        }
        assert(size + padding(size, a) == a * (q + 1)) by (nonlinear_arith)
            requires
                size == a * q + r,
                padding(size, a) == a - r,
        ;
        vstd::arithmetic::div_mod::lemma_mod_multiples_basic(q as int + 1, a as int);
        assert((q + 1) * a == a * (q + 1)) by (nonlinear_arith);
    }
}


/// Once a prefix of the pool holds the vtable, the whole pool finds it at the same index.
pub(crate) proof fn lemma_find_prefix(bytes: Seq<u8>, pool: Seq<u32>, vt: Seq<u8>, m: int)
    requires
        0 <= m <= pool.len(),
        find_vtable(bytes, pool.take(m), vt) is Some,
    ensures
        find_vtable(bytes, pool, vt) == find_vtable(bytes, pool.take(m), vt),
    decreases pool.len(),
{
    if m == pool.len() {
        assert(pool.take(m) =~= pool);
    } else {
        assert(pool.drop_last().take(m) =~= pool.take(m));
        lemma_find_prefix(bytes, pool.drop_last(), vt, m);
    }
}

/// Bytes at a distance from the end stay the same when bytes are added in front.
pub(crate) proof fn lemma_suffix_stable(x: Seq<u8>, b: Seq<u8>, p: int, n: int)
    requires
        0 <= n <= p <= b.len(),
    ensures
        (x + b).subrange((x + b).len() - p, (x + b).len() - p + n) == b.subrange(
            b.len() - p,
            b.len() - p + n,
        ),
{
    assert((x + b).subrange((x + b).len() - p, (x + b).len() - p + n) =~= b.subrange(
        b.len() - p,
        b.len() - p + n,
    ));
}

proof fn lemma_le_zero_2()
    ensures
        le_encode(0, 2) == seq![0u8, 0u8],
{
    reveal_with_fuel(le_encode, 3);
    assert(le_encode(0, 2) =~= seq![0u8, 0u8]);
}

/// After `start_vector(n, w)` the arena is aligned for the elements, and the length
/// word that follows `n` elements is aligned too.
pub(crate) proof fn lemma_start_vector_aligned(m: BuilderModel, n: nat, w: nat)
    requires
        w == 1 || w == 2 || w == 4 || w == 8,
    ensures
        m.start_vector(n, w).size() % w == 0,
        (m.start_vector(n, w).size() + n * w) % 4 == 0,
{
    let nw = n * w;
    let s1 = m.pre_align(nw, 4);
    lemma_padding(m.size() + nw, 4);
    let s2 = s1.pre_align(nw, w);
    lemma_padding(s1.size() + nw, w);
    let a = s1.size() as int;
    let b = s2.size() as int;
    assert((a + nw) % 4 == 0);
    assert((b + nw) % (w as int) == 0);
    if w == 1 {
        assert(b == a);
    } else if w == 2 {
        assert((a + n * 2) % 2 == 0);
        assert(padding(s1.size() + nw, 2) == 0);
        assert(b == a);
        assert(b % 2 == 0);
    } else if w == 4 {
        assert(padding(s1.size() + nw, 4) == 0);
        assert(b == a);
        assert(b % 4 == 0);
    } else {
        assert((b + n * 8) % 8 == 0);
        assert(b % 8 == 0);
        assert((b + n * 8) % 4 == 0);
    }
}

proof fn lemma_small_pow2()
    ensures
        is_pow2(1),
        is_pow2(2),
        is_pow2(4),
        is_pow2(8),
{
    reveal_with_fuel(is_pow2, 4);
}

impl FlatBufferBuilder {
    pub closed spec fn wf(&self) -> bool {
        &&& self.buf.wf()
        &&& self.buf@.len() <= MAX_BUFFER_SIZE
        &&& is_pow2(self.min_align as nat)
        &&& self.min_align <= MAX_BUFFER_SIZE
    }

    pub fn new(initial_capacity: usize) -> (r: FlatBufferBuilder)
        ensures
            r.wf(),
            r@ == BuilderModel::empty(false),
    {
        proof {
            lemma_small_pow2();
        }
        let r = FlatBufferBuilder {
            buf: VecDownward::new(initial_capacity),
            offset_buf: Vec::new(),
            vtables: Vec::new(),
            min_align: 1,
            force_defaults: false,
        };
        assert(r@.fields =~= Seq::<FieldLoc>::empty());
        assert(r@.vtables =~= Seq::<u32>::empty());
        r
    }

    /// Forgets the buffer being built, keeping the memory for the next one.
    pub fn clear(&mut self)
        requires
            old(self).wf(),
        ensures
            final(self).wf(),
            final(self)@ == BuilderModel::empty(old(self)@.force_defaults),
    {
        proof {
            lemma_small_pow2();
        }
        self.buf.clear();
        self.offset_buf.clear();
        self.vtables.clear();
        self.min_align = 1;
        assert(self@.fields =~= Seq::<FieldLoc>::empty());
        assert(self@.vtables =~= Seq::<u32>::empty());
    }

    pub fn get_size(&self) -> (r: usize)
        requires
            self.wf(),
        ensures
            r == self@.size(),
    {
        self.buf.len()
    }

    /// The bytes written so far; after `finish`, the finished buffer.
    pub fn get_buffer(&self) -> (r: &[u8])
        requires
            self.wf(),
        ensures
            r@ == self@.bytes,
    {
        self.buf.data()
    }

    /// Whether fields equal to their default are written anyway.
    pub fn force_defaults(&mut self, fd: bool)
        requires
            old(self).wf(),
        ensures
            final(self).wf(),
            final(self)@ == (BuilderModel { force_defaults: fd, ..old(self)@ }),
    {
        self.force_defaults = fd;
    }

    pub fn pad(&mut self, num_bytes: usize)
        requires
            old(self).wf(),
            old(self)@.size() + num_bytes <= MAX_BUFFER_SIZE,
        ensures
            final(self).wf(),
            final(self)@ == old(self)@.pad(num_bytes as nat),
    {
        self.buf.fill(num_bytes);
    }

    pub fn align(&mut self, elem_size: usize)
        requires
            old(self).wf(),
            is_pow2(elem_size as nat),
            old(self)@.size() + elem_size <= MAX_BUFFER_SIZE,
        ensures
            final(self).wf(),
            final(self)@ == old(self)@.align(elem_size as nat),
            final(self)@.size() % (elem_size as nat) == 0,
            final(self)@.size() < old(self)@.size() + elem_size,
    {
        if elem_size > self.min_align {
            self.min_align = elem_size;
        }
        let len = self.buf.len();
        proof {
            lemma_padding(len as nat, elem_size as nat);
        }
        self.buf.fill(padding_bytes(len, elem_size));
    }

    pub fn push_bytes(&mut self, dat: &[u8])
        requires
            old(self).wf(),
            old(self)@.size() + dat@.len() <= MAX_BUFFER_SIZE,
        ensures
            final(self).wf(),
            final(self)@ == old(self)@.push_bytes(dat@),
    {
        self.buf.push(dat);
    }

    pub fn pop_bytes(&mut self, len: usize)
        requires
            old(self).wf(),
            len <= old(self)@.size(),
        ensures
            final(self).wf(),
            final(self)@ == old(self)@.pop_bytes(len as nat),
    {
        self.buf.pop(len)
    }

    /// Aligns to the scalar's width and writes it; returns the new size, which is the
    /// scalar's position.
    pub fn push_scalar<T: Endian>(&mut self, elem: T) -> (r: usize)
        requires
            old(self).wf(),
            old(self)@.size() + padding(old(self)@.size(), T::width()) + T::width()
                <= MAX_BUFFER_SIZE,
        ensures
            final(self).wf(),
            final(self)@ == old(self)@.push_scalar(elem),
            r == final(self)@.size(),
            r < old(self)@.size() + 2 * T::width(),
            (r as nat) % T::width() == 0,
    {
        proof {
            elem.lemma_round_trip();
            lemma_small_pow2();
        }
        let little = elem.to_le_vec();
        proof {
            lemma_padding(old(self)@.size(), T::width());
        }
        self.align(T::size());
        self.buf.push(little.as_slice());
        proof {
            vstd::arithmetic::div_mod::lemma_add_mod_noop(
                self@.size() - T::width(),
                T::width() as int,
                T::width() as int,
            );
            vstd::arithmetic::div_mod::lemma_mod_self_0(T::width() as int);
        }
        self.get_size()
    }

    pub fn push_offset<T>(&mut self, off: Offset<T>) -> (r: usize)
        requires
            old(self).wf(),
            off@ <= old(self)@.size(),
            old(self)@.size() + 12 <= MAX_BUFFER_SIZE,
        ensures
            final(self).wf(),
            final(self)@ == old(self)@.push_offset(off@ as nat),
            r == final(self)@.size(),
            r < old(self)@.size() + 12,
            old(self)@.size() % 4 == 0 ==> r == old(self)@.size() + 4,
    {
        let adjusted = self.refer_to(off.inner);
        proof {
            lemma_padding(self@.size(), 4);
        }
        self.push_scalar(adjusted)
    }

    /// Aligns for an offset word and returns the value that a word written next must
    /// hold to refer to `off`.
    pub fn refer_to(&mut self, off: UOffset) -> (r: UOffset)
        requires
            old(self).wf(),
            off <= old(self)@.size(),
            old(self)@.size() + 8 <= MAX_BUFFER_SIZE,
        ensures
            final(self).wf(),
            final(self)@ == old(self)@.align(4),
            r == old(self)@.refer_value(off as nat),
            4 <= r <= MAX_BUFFER_SIZE,
            r as i32 >= 0,
    {
        proof {
            lemma_small_pow2();
            lemma_padding(old(self)@.size(), 4);
        }
        self.align(4);
        let buf_size = self.get_size() as UOffset;
        buf_size - off + 4
    }

    pub fn track_field(&mut self, field: VOffset, off: UOffset)
        requires
            old(self).wf(),
        ensures
            final(self).wf(),
            final(self)@ == old(self)@.track_field(field, off),
    {
        self.offset_buf.push(FieldLoc { off, id: field });
    }

    /// Adds a scalar field to the table being built, unless it equals its default
    /// and defaults are not forced.
    pub fn add_scalar<T: Endian>(&mut self, field: VOffset, e: T, def: T)
        requires
            old(self).wf(),
            old(self)@.size() + 16 <= MAX_BUFFER_SIZE,
        ensures
            final(self).wf(),
            final(self)@ == old(self)@.add_scalar(field, e, def),
    {
        proof {
            e.lemma_round_trip();
        }
        if e.same(def) && !self.force_defaults {
            return;
        }
        proof {
            lemma_padding(self@.size(), T::width());
        }
        let off = self.push_scalar(e) as UOffset;
        self.track_field(field, off);
    }

    /// Adds a field that refers to `off`; a zero offset stands for no value and
    /// adds nothing.
    pub fn add_offset<T>(&mut self, field: VOffset, off: Offset<T>)
        requires
            old(self).wf(),
            off@ <= old(self)@.size(),
            old(self)@.size() + 24 <= MAX_BUFFER_SIZE,
        ensures
            final(self).wf(),
            final(self)@ == old(self)@.add_offset(field, off@),
    {
        if off.inner == 0 {
            return;
        }
        let adjusted = self.refer_to(off.inner);
        self.add_scalar(field, adjusted, 0u32);
    }

    /// Writes the bytes of a struct, aligned to `align`, as a field of the table
    /// being built.
    pub fn add_struct(&mut self, field: VOffset, dat: &[u8], align: usize)
        requires
            old(self).wf(),
            is_pow2(align as nat),
            dat@.len() % (align as nat) == 0,
            old(self)@.size() + align + dat@.len() <= MAX_BUFFER_SIZE,
        ensures
            final(self).wf(),
            final(self)@ == old(self)@.add_struct(field, dat@, align as nat),
    {
        proof {
            lemma_padding(old(self)@.size(), align as nat);
        }
        self.align(align);
        self.push_bytes(dat);
        let off = self.get_size() as UOffset;
        self.track_field(field, off);
    }

    /// Records a field whose struct was written earlier, at `off`.
    pub fn add_struct_offset(&mut self, field: VOffset, off: UOffset)
        requires
            old(self).wf(),
        ensures
            final(self).wf(),
            final(self)@ == old(self)@.track_field(field, off),
    {
        self.track_field(field, off);
    }

    /// Whether a table is being built.
    pub fn is_nested(&self) -> (r: bool)
        ensures
            r == (self@.fields.len() != 0),
    {
        self.offset_buf.len() != 0
    }

    /// Overwrites written bytes in place, starting at distance `pos` from the end;
    /// this is how elements reserved by `create_uninitialized_vector` are filled.
    pub fn write_at(&mut self, pos: usize, dat: &[u8])
        requires
            old(self).wf(),
            dat@.len() <= pos <= old(self)@.size(),
        ensures
            final(self).wf(),
            final(self)@ == (BuilderModel {
                bytes: old(self)@.bytes.subrange(0, old(self)@.size() - pos) + dat@
                    + old(self)@.bytes.subrange(
                    old(self)@.size() - pos + dat@.len(),
                    old(self)@.size() as int,
                ),
                ..old(self)@
            }),
    {
        self.buf.write_at(pos, dat);
    }

    /// Callable only while no table is being built.
    pub fn not_nested(&self)
        requires
            self@.fields.len() == 0,
    {
    }

    /// Starts a table; returns the current size, which `end_table` takes back.
    pub fn start_table(&self) -> (r: UOffset)
        requires
            self.wf(),
            self@.fields.len() == 0,
        ensures
            r == self@.size(),
    {
        self.not_nested();
        self.get_size() as UOffset
    }

    /// Pads so that after `len` more bytes the size is a multiple of `align`.
    pub fn pre_align(&mut self, len: usize, align: usize)
        requires
            old(self).wf(),
            is_pow2(align as nat),
            old(self)@.size() + len + align <= MAX_BUFFER_SIZE,
        ensures
            final(self).wf(),
            final(self)@ == old(self)@.pre_align(len as nat, align as nat),
            final(self)@.min_align == max_nat(old(self)@.min_align, align as nat),
    {
        if align > self.min_align {
            self.min_align = align;
        }
        let size = self.get_size();
        self.buf.fill(padding_bytes(size + len, align));
    }

    /// Writes a string: its 32-bit length, its bytes and a NUL byte.
    pub fn create_string(&mut self, s: &str) -> (r: Offset<Str>)
        requires
            old(self).wf(),
            old(self)@.fields.len() == 0,
            old(self)@.size() + s.spec_bytes().len() + 16 <= MAX_BUFFER_SIZE,
        ensures
            final(self).wf(),
            final(self)@ == old(self)@.pre_align(s.spec_bytes().len() + 1, 4).pad(1).push_bytes(
                s.spec_bytes(),
            ).push_scalar(s.spec_bytes().len() as u32),
            r@ == final(self)@.size(),
            r@ % 4 == 0,
    {
        self.not_nested();
        let bytes = s.as_bytes();
        proof {
            lemma_small_pow2();
        }
        self.pre_align(bytes.len() + 1, 4);
        self.buf.fill(1);
        self.push_bytes(bytes);
        self.push_scalar(bytes.len() as UOffset);
        Offset::new(self.get_size() as UOffset)
    }

    /// Pads so that a vector of `len` elements of `elem_size` bytes, and its
    /// length before them, are aligned.
    pub fn start_vector(&mut self, len: usize, elem_size: usize)
        requires
            old(self).wf(),
            is_pow2(elem_size as nat),
            old(self)@.size() + len * elem_size + elem_size + 4 <= MAX_BUFFER_SIZE,
        ensures
            final(self).wf(),
            final(self)@ == old(self)@.start_vector(len as nat, elem_size as nat),
            final(self)@.size() < old(self)@.size() + elem_size + 4,
    {
        proof {
            lemma_small_pow2();
            lemma_padding((old(self)@.size() + len * elem_size) as nat, 4);
            let m = old(self)@.pre_align((len * elem_size) as nat, 4);
            lemma_padding((m.size() + len * elem_size) as nat, elem_size as nat);
        }
        self.pre_align(len * elem_size, 4);
        self.pre_align(len * elem_size, elem_size);
    }

    /// Adds `len * elem_size` zero bytes for elements written later; returns the
    /// new size.
    pub fn reserve_elements(&mut self, len: usize, elem_size: usize) -> (r: usize)
        requires
            old(self).wf(),
            old(self)@.size() + len * elem_size <= MAX_BUFFER_SIZE,
        ensures
            final(self).wf(),
            final(self)@ == old(self)@.pad((len * elem_size) as nat),
            r == final(self)@.size(),
    {
        self.buf.fill(len * elem_size);
        self.get_size()
    }

    /// Writes the length of a vector whose elements were just written.
    pub fn end_vector(&mut self, len: usize) -> (r: UOffset)
        requires
            old(self).wf(),
            len <= MAX_BUFFER_SIZE,
            old(self)@.size() + 8 <= MAX_BUFFER_SIZE,
        ensures
            final(self).wf(),
            final(self)@ == old(self)@.push_scalar(len as u32),
            r == final(self)@.size(),
            r % 4 == 0,
    {
        proof {
            lemma_padding(self@.size(), 4);
        }
        self.push_scalar(len as UOffset) as UOffset
    }

    /// Writes a vector of scalars.
    pub fn create_vector<T: Endian>(&mut self, v: &[T]) -> (r: Offset<Vector>)
        requires
            old(self).wf(),
            old(self)@.fields.len() == 0,
            old(self)@.size() + v@.len() * T::width() + 24 <= MAX_BUFFER_SIZE,
        ensures
            final(self).wf(),
            final(self)@ == old(self)@.create_vector(v@),
            r@ == final(self)@.size(),
            r@ % 4 == 0,
    {
        self.not_nested();
        let n = v.len();
        let w = T::size();
        proof {
            T::lemma_width();
            lemma_small_pow2();
            lemma_start_vector_aligned(old(self)@, n as nat, w as nat);
        }
        self.start_vector(n, w);
        let ghost m0 = self@;
        let mut i: usize = n;
        assert(v@.take(n as int) =~= v@);
        while i > 0
            invariant
                self.wf(),
                i <= n,
                n == v@.len(),
                w == T::width(),
                1 <= w <= 8,
                self@.push_scalars_rev(v@.take(i as int)) == m0.push_scalars_rev(v@),
                self@.size() + i * w + 8 <= MAX_BUFFER_SIZE,
                self@.size() % (w as nat) == 0,
                (self@.size() + i * w) % 4 == 0,
                self@.fields.len() == 0,
            decreases i,
        {
            assert((i - 1) * w + w == i * w) by (nonlinear_arith);
            proof {
                vstd::arithmetic::div_mod::lemma_mod_self_0(w as int);
            }
            assert(v@.take(i as int).drop_last() =~= v@.take(i - 1));
            assert(v@.take(i as int).last() == v@[i - 1]);
            proof {
                v@[i - 1].lemma_round_trip();
                lemma_padding(self@.size(), T::width());
            }
            self.push_scalar(v[i - 1]);
            proof {
                vstd::arithmetic::div_mod::lemma_add_mod_noop(
                    self@.size() - w,
                    w as int,
                    w as int,
                );
            }
            i = i - 1;
        }
        assert(v@.take(0) =~= Seq::<T>::empty());
        let end = self.end_vector(n);
        Offset::new(end)
    }

    /// Writes a vector of offset words referring to the positions in `v`.
    pub fn create_vector_of_offsets<T>(&mut self, v: &[Offset<T>]) -> (r: Offset<Vector>)
        requires
            old(self).wf(),
            old(self)@.fields.len() == 0,
            old(self)@.size() + 4 * v@.len() + 16 <= MAX_BUFFER_SIZE,
            forall|i: int| 0 <= i < v@.len() ==> #[trigger] v@[i]@ <= old(self)@.size(),
        ensures
            final(self).wf(),
            final(self)@ == old(self)@.create_vector_of_offsets(v@.map_values(|o: Offset<T>| o@)),
            r@ == final(self)@.size(),
    {
        let ghost targets = v@.map_values(|o: Offset<T>| o@);
        self.not_nested();
        let n = v.len();
        proof {
            lemma_small_pow2();
            lemma_start_vector_aligned(old(self)@, n as nat, 4);
        }
        self.start_vector(n, 4);
        let ghost m0 = self@;
        let mut i: usize = n;
        assert(targets.take(n as int) =~= targets);
        while i > 0
            invariant
                self.wf(),
                i <= n,
                n == v@.len(),
                targets == v@.map_values(|o: Offset<T>| o@),
                self@.push_offsets_rev(targets.take(i as int)) == m0.push_offsets_rev(targets),
                self@.size() + 4 * i + 8 <= MAX_BUFFER_SIZE,
                self@.size() % 4 == 0,
                self@.size() >= old(self)@.size(),
                forall|k: int| 0 <= k < v@.len() ==> #[trigger] v@[k]@ <= old(self)@.size(),
                self@.fields.len() == 0,
            decreases i,
        {
            assert(targets.take(i as int).drop_last() =~= targets.take(i - 1));
            assert(targets.take(i as int).last() == v@[i - 1]@);
            let target: Offset<T> = Offset::new(v[i - 1].value());
            self.push_offset(target);
            i = i - 1;
        }
        assert(targets.take(0) =~= Seq::<u32>::empty());
        let end = self.end_vector(n);
        Offset::new(end)
    }

    /// Writes a vector of `count` structs whose bytes, one after another, are `v`.
    pub fn create_vector_of_structs(&mut self, v: &[u8], count: usize, align: usize) -> (r:
        Offset<Vector>)
        requires
            old(self).wf(),
            old(self)@.fields.len() == 0,
            is_pow2(align as nat),
            v@.len() % (align as nat) == 0,
            (count == 0) == (v@.len() == 0),
            count > 0 ==> v@.len() % (count as nat) == 0 && (v@.len() / (count as nat)) % (
            align as nat) == 0,
            count <= MAX_BUFFER_SIZE,
            old(self)@.size() + v@.len() + align + 16 <= MAX_BUFFER_SIZE,
        ensures
            final(self).wf(),
            final(self)@.min_align >= align,
            final(self)@ == old(self)@.start_vector(v@.len() / align as nat, align as nat).push_bytes(
                v@,
            ).push_scalar(count as u32),
            r@ == final(self)@.size(),
    {
        self.not_nested();
        assert((v@.len() / align as nat) * align <= v@.len()) by (nonlinear_arith)
            requires
                align > 0,
        ;
        self.start_vector(v.len() / align, align);
        self.push_bytes(v);
        let end = self.end_vector(count);
        Offset::new(end)
    }

    /// Pads to the largest alignment used and writes the root offset at the front,
    /// which completes the buffer.
    pub fn finish<T>(&mut self, root: Offset<T>)
        requires
            old(self).wf(),
            root@ <= old(self)@.size(),
            old(self)@.size() + old(self)@.min_align + 16 <= MAX_BUFFER_SIZE,
        ensures
            final(self).wf(),
            final(self)@ == old(self)@.finish(root@ as nat),
    {
        let min_align = self.min_align;
        proof {
            lemma_padding(old(self)@.size() + 4, min_align as nat);
        }
        self.pre_align(4, min_align);
        let refer = self.refer_to(root.inner);
        proof {
            lemma_padding(self@.size(), 4);
        }
        self.push_scalar(refer);
    }

    /// The `n` bytes at distance `p` from the end equal the first `n` bytes.
    fn matches_front(&self, p: usize, n: usize) -> (r: bool)
        requires
            self.wf(),
            n <= p <= self@.size(),
        ensures
            r == (self@.bytes.subrange(self@.size() - p, self@.size() - p + n)
                == self@.bytes.subrange(0, n as int)),
    {
        let front = self.buf.data();
        let there = self.buf.data_at(p);
        let mut i: usize = 0;
        while i < n
            invariant
                i <= n <= p <= self@.size(),
                front@ == self@.bytes,
                there@ == self@.bytes.subrange(self@.size() - p, self@.size() as int),
                forall|j: int| 0 <= j < i ==> front@[j] == there@[j],
            decreases n - i,
        {
            if front[i] != there[i] {
                assert(self@.bytes.subrange(self@.size() - p, self@.size() - p + n)[i as int]
                    != self@.bytes.subrange(0, n as int)[i as int]);
                return false;
            }
            i = i + 1;
        }
        assert(self@.bytes.subrange(self@.size() - p, self@.size() - p + n)
            =~= self@.bytes.subrange(0, n as int));
        true
    }

    /// Finishes the table being built: writes its vtable, or reuses an identical
    /// one written before, and links the table to it. Returns the table's position.
    pub fn end_table(&mut self, start: UOffset, num_fields: VOffset) -> (r: UOffset)
        requires
            old(self).wf(),
            old(self)@.can_end_table(start as nat, num_fields as nat),
        ensures
            final(self).wf(),
            final(self)@ == old(self)@.end_table(start as nat, num_fields as nat),
            r == old(self)@.table_pos(),
            r % 4 == 0,
    {
        let ghost b0 = old(self)@;
        let ghost vt = b0.vtable_bytes(start as nat, num_fields as nat);
        let old_size = self.get_size();
        proof {
            lemma_padding(b0.size(), 4);
            lemma_small_pow2();
            lemma_le_zero_2();
            (0i32).lemma_round_trip();
        }
        let vtable_offset_loc = self.push_scalar::<SOffset>(0);
        let ghost b1 = self@;
        assert(b1.bytes == (0i32).le_bytes() + zeros(padding(b0.size(), 4)) + b0.bytes);
        assert(vtable_offset_loc == b0.table_pos());
        let nslots = (num_fields as usize) * 2;
        self.buf.fill(nslots);
        let table_object_size = vtable_offset_loc - (start as usize);
        let obj = table_object_size as VOffset;
        proof {
            obj.lemma_round_trip();
            assert(self@.size() % 2 == 0);
            assert(padding(self@.size(), 2) == 0);
        }
        self.push_scalar(obj);
        let vt_size = field_index_to_offset(num_fields);
        proof {
            vt_size.lemma_round_trip();
            assert(self@.size() % 2 == 0);
            assert(padding(self@.size(), 2) == 0);
        }
        self.push_scalar(vt_size);
        let ghost head = vt_size.le_bytes() + obj.le_bytes();
        assert(head.len() == 4);
        let ghost slots0 = slot_bytes(b0.fields.take(0), num_fields as nat, vtable_offset_loc as int);
        assert(slots0 =~= zeros(nslots as nat));
        assert(self@.bytes =~= head + slots0 + b1.bytes);
        let mut k: usize = 0;
        let nfields = self.offset_buf.len();
        while k < nfields
            invariant
                self.wf(),
                k <= nfields,
                nfields == b0.fields.len(),
                self.offset_buf@ == b0.fields,
                self.vtables@ == b0.vtables,
                self@.min_align == max_nat(b0.min_align, 4),
                self@.force_defaults == b0.force_defaults,
                b0.can_end_table(start as nat, num_fields as nat),
                vtable_offset_loc == b0.table_pos(),
                nslots == num_fields * 2,
                head.len() == 4,
                self@.bytes == head + slot_bytes(
                    b0.fields.take(k as int),
                    num_fields as nat,
                    vtable_offset_loc as int,
                ) + b1.bytes,
                b1.size() == vtable_offset_loc,
            decreases nfields - k,
        {
            let fl = self.offset_buf[k];
            let slot_val = (vtable_offset_loc - fl.off as usize) as VOffset;
            let slot = slot_val.to_le_vec();
            let size = self.buf.len();
            let ghost before = self@.bytes;
            let ghost fk = b0.fields.take(k as int);
            let ghost fk1 = b0.fields.take(k + 1);
            proof {
                assert(b0.fields[k as int] == fl);
                crate::endian::lemma_le_encode_len(slot_val as nat, 2);
                assert(fk1.drop_last() =~= fk);
                assert(fk1.last() == fl);
                assert(slot_bytes(fk, num_fields as nat, vtable_offset_loc as int).len() == nslots);
            }
            self.buf.write_at(size - fl.id as usize, slot.as_slice());
            proof {
                let id = fl.id as int;
                let news = slot_bytes(fk1, num_fields as nat, vtable_offset_loc as int);
                let olds = slot_bytes(fk, num_fields as nat, vtable_offset_loc as int);
                assert forall|j: int| 0 <= j < nslots implies #[trigger] news[j] == if 4 + j == id
                    || 4 + j == id + 1 {
                    slot@[4 + j - id]
                } else {
                    olds[j]
                } by {
                    let sid = 4 + 2 * (j / 2);
                    if 4 + j == id || 4 + j == id + 1 {
                        assert(sid == id);
                    } else {
                        assert(sid != id);
                        assert(slot_value(fk1, sid, vtable_offset_loc as int) == slot_value(
                            fk,
                            sid,
                            vtable_offset_loc as int,
                        ));
                    }
                }
                assert(self@.bytes =~= head + news + b1.bytes);
            }
            k = k + 1;
        }
        assert(b0.fields.take(nfields as int) =~= b0.fields);
        self.offset_buf.clear();
        let ghost b5 = self@.bytes;
        assert(b5 == vt + b1.bytes);
        // Look for an identical vtable among those written before.
        let vt_len = vt_size as usize;
        let mut found = false;
        let mut vt_use: usize = self.get_size();
        let mut i: usize = 0;
        let npool = self.vtables.len();
        proof {
            crate::endian::lemma_le_encode_len(0, 0);
            assert(b0.vtables.take(0) =~= Seq::<u32>::empty());
        }
        while i < npool
            invariant
                self.wf(),
                i <= npool,
                npool == b0.vtables.len(),
                self.vtables@ == b0.vtables,
                self@.min_align == max_nat(b0.min_align, 4),
                self@.force_defaults == b0.force_defaults,
                vtable_offset_loc == b1.size(),
                old_size == b0.size(),
                vt_len == vt.len(),
                !found ==> self@.bytes == b5,
                !found ==> find_vtable(b0.bytes, b0.vtables.take(i as int), vt) is None,
                !found ==> vt_use == b5.len(),
                found ==> find_vtable(b0.bytes, b0.vtables, vt) == Some(i as int),
                found ==> vt_use == b0.vtables[i as int],
                found ==> vt_use <= old_size,
                vt_use <= MAX_BUFFER_SIZE,
                found ==> self@.bytes == b1.bytes,
                b5 == vt + b1.bytes,
                b1.bytes == (0i32).le_bytes() + zeros(padding(b0.size(), 4)) + b0.bytes,
                self@.fields.len() == 0,
            ensures
                !found ==> i == npool,
            decreases npool - i + if found { 0int } else { 1int },
        {
            if found {
                break;
            }
            let p = self.vtables[i] as usize;
            let ghost rest = (0i32).le_bytes() + zeros(padding(b0.size(), 4));
            if vt_len <= p && p <= old_size {
                proof {
                    assert(b5 =~= (vt + rest) + b0.bytes);
                    lemma_suffix_stable(vt + rest, b0.bytes, p as int, vt_len as int);
                }
                if self.matches_front(p, vt_len) {
                    proof {
                        assert(b5.subrange(0, vt_len as int) =~= vt);
                        assert(b0.vtables.take(i + 1).drop_last() =~= b0.vtables.take(i as int));
                        assert(vtable_at(b0.bytes, b0.vtables.take(i + 1).last() as int, vt));
                        lemma_find_prefix(b0.bytes, b0.vtables, vt, i + 1);
                    }
                    found = true;
                    vt_use = p;
                    let to_pop = self.get_size() - vtable_offset_loc;
                    self.buf.pop(to_pop);
                    assert(self@.bytes =~= b1.bytes);
                } else {
                    proof {
                        assert(b5.subrange(0, vt_len as int) =~= vt);
                        assert(b0.vtables.take(i + 1).drop_last() =~= b0.vtables.take(i as int));
                    }
                    i = i + 1;
                }
            } else {
                assert(b0.vtables.take(i + 1).drop_last() =~= b0.vtables.take(i as int));
                i = i + 1;
            }
        }
        if !found {
            assert(b0.vtables.take(npool as int) =~= b0.vtables);
            self.vtables.push(vt_use as UOffset);
        }
        proof {
            if found {
                assert(b0.table_vtable(start as nat, num_fields as nat) == vt_use);
            } else {
                assert(find_vtable(b0.bytes, b0.vtables, vt) is None);
                assert(b0.table_vtable(start as nat, num_fields as nat) == vt_use);
                assert(self.vtables@ == b0.vtables.push(vt_use as u32));
            }
        }
        let link: SOffset = (vt_use as SOffset) - (vtable_offset_loc as SOffset);
        let link_bytes = link.to_le_vec();
        proof {
            link.lemma_round_trip();
            (0i32).lemma_round_trip();
        }
        self.buf.write_at(vtable_offset_loc, link_bytes.as_slice());
        proof {
            let table = link.le_bytes() + zeros(padding(b0.size(), 4)) + b0.bytes;
            if found {
                assert(self@.bytes =~= table);
            } else {
                assert(self@.bytes =~= vt + table);
            }
            assert(self@.fields =~= Seq::<FieldLoc>::empty());
        }
        vtable_offset_loc as UOffset
    }

    /// Sorts the offsets `v` of tables written before by the tables' keys, then
    /// writes them as a vector of offsets.
    pub fn create_vector_of_sorted_tables<T: OrdTable>(&mut self, v: &mut [Offset<T>]) -> (r:
        Offset<Vector>)
        requires
            old(self).wf(),
            old(self)@.fields.len() == 0,
            old(self)@.size() + 4 * old(v)@.len() + 16 <= MAX_BUFFER_SIZE,
            forall|i: int|
                0 <= i < old(v)@.len() ==> 1 <= #[trigger] old(v)@[i]@ <= old(self)@.size(),
        ensures
            final(v)@.map_values(|o: Offset<T>| o@).to_multiset() == old(v)@.map_values(
                |o: Offset<T>| o@,
            ).to_multiset(),
            sorted_by_key::<T>(old(self)@.bytes, final(v)@.map_values(|o: Offset<T>| o@)),
            final(self).wf(),
            final(self)@ == old(self)@.create_vector_of_offsets(
                final(v)@.map_values(|o: Offset<T>| o@),
            ),
            r@ == final(self)@.size(),
    {
        let ghost bytes = self@.bytes;
        let ghost orig = v@.map_values(|o: Offset<T>| o@);
        let n = v.len();
        let size = self.get_size();
        let mut i: usize = 1;
        while i < n
            invariant
                self.wf(),
                self@ == old(self)@,
                bytes == self@.bytes,
                size == bytes.len(),
                n == v@.len(),
                1 <= i || n == 0,
                v@.map_values(|o: Offset<T>| o@).to_multiset() == orig.to_multiset(),
                forall|k: int| 0 <= k < n ==> 1 <= #[trigger] v@[k]@ <= size,
                forall|k: int|
                    0 <= k < i - 1 && k < n - 1 ==> T::key_le(
                        bytes,
                        bytes.len() - (#[trigger] v@[k])@,
                        bytes.len() - v@[k + 1]@,
                    ),
            decreases n - i,
        {
            let mut j: usize = i;
            while j > 0
                invariant
                    self.wf(),
                    self@ == old(self)@,
                    bytes == self@.bytes,
                    size == bytes.len(),
                    n == v@.len(),
                    i < n,
                    j <= i,
                    v@.map_values(|o: Offset<T>| o@).to_multiset() == orig.to_multiset(),
                    forall|k: int| 0 <= k < n ==> 1 <= #[trigger] v@[k]@ <= size,
                    forall|k: int|
                        0 <= k < i && k != j - 1 ==> T::key_le(
                            bytes,
                            bytes.len() - (#[trigger] v@[k])@,
                            bytes.len() - v@[k + 1]@,
                        ),
                    0 < j < i ==> T::key_le(
                        bytes,
                        bytes.len() - v@[j - 1]@,
                        bytes.len() - v@[j + 1]@,
                    ),
                ensures
                    j == 0 || T::key_le(bytes, bytes.len() - v@[j - 1]@, bytes.len() - v@[j as int]@),
                    forall|k: int|
                        0 <= k < i && k != j - 1 ==> T::key_le(
                            bytes,
                            bytes.len() - (#[trigger] v@[k])@,
                            bytes.len() - v@[k + 1]@,
                        ),
                    v@.map_values(|o: Offset<T>| o@).to_multiset() == orig.to_multiset(),
                    forall|k: int| 0 <= k < n ==> 1 <= #[trigger] v@[k]@ <= size,
                    n == v@.len(),
                decreases j,
            {
                let data = self.get_buffer();
                let a = v[j - 1].value();
                let b = v[j].value();
                let ia = size - a as usize;
                let ib = size - b as usize;
                let c = T::key_cmp(data, ia, ib);
                assert(ia == bytes.len() - v@[j - 1]@ && ib == bytes.len() - v@[j as int]@);
                let greater = match c {
                    Ordering::Greater => true,
                    _ => false,
                };
                if !greater {
                    assert(T::key_le(bytes, ia as int, ib as int));
                    break;
                }
                assert(!T::key_le(bytes, ia as int, ib as int));
                proof {
                    T::lemma_key_total(bytes, bytes.len() - a, bytes.len() - b);
                }
                let ghost before = v@;
                v[j - 1] = Offset::new(b);
                v[j] = Offset::new(a);
                proof {
                    let m0 = before.map_values(|o: Offset<T>| o@);
                    let m1 = m0.update(j - 1, b);
                    assert(v@.map_values(|o: Offset<T>| o@) =~= m1.update(j as int, a));
                    vstd::seq_lib::to_multiset_update(m0, j - 1, b);
                    vstd::seq_lib::to_multiset_update(m1, j as int, a);
                    assert(m0[j - 1] == a);
                    assert(m1[j as int] == b);
                    assert(m0.to_multiset().count(a) > 0) by {
                        vstd::seq_lib::to_multiset_contains(m0, a);
                        assert(m0.contains(a));
                    }
                    assert(m0.to_multiset().count(b) > 0) by {
                        vstd::seq_lib::to_multiset_contains(m0, b);
                        assert(m0[j as int] == b);
                        assert(m0.contains(b));
                    }
                    assert(m1.update(j as int, a).to_multiset() =~= m0.to_multiset());
                    assert(v@[j - 1]@ == b && v@[j as int]@ == a);
                    assert forall|k: int| 0 <= k < i && k != j - 2 implies T::key_le(
                        bytes,
                        bytes.len() - (#[trigger] v@[k])@,
                        bytes.len() - v@[k + 1]@,
                    ) by {
                        if k == j - 1 {
                            assert(T::key_le(bytes, ib as int, ia as int));
                        } else if k == j {
                            assert(v@[k + 1] == before[k + 1]);
                        } else {
                            assert(v@[k] == before[k]);
                            assert(v@[k + 1] == before[k + 1]);
                            assert(T::key_le(
                                bytes,
                                bytes.len() - before[k]@,
                                bytes.len() - before[k + 1]@,
                            ));
                        }
                    }
                    if 0 < j - 1 {
                        assert(v@[j - 2] == before[j - 2]);
                        assert(T::key_le(
                            bytes,
                            bytes.len() - before[j - 2]@,
                            bytes.len() - before[j - 1]@,
                        ));
                    }
                }
                j = j - 1;
            }
            i = i + 1;
        }
        self.create_vector_of_offsets(v)
    }

    /// Writes a vector of `len` zeroed elements of `elem_size` bytes, to be filled
    /// in place. Returns the vector's position and that of its first element, both
    /// as distances from the end.
    pub fn create_uninitialized_vector(&mut self, len: usize, elem_size: usize) -> (r: (
        UOffset,
        usize,
    ))
        requires
            old(self).wf(),
            old(self)@.fields.len() == 0,
            is_pow2(elem_size as nat),
            old(self)@.size() + len * elem_size + elem_size + 16 <= MAX_BUFFER_SIZE,
        ensures
            final(self).wf(),
            final(self)@ == old(self)@.start_vector(len as nat, elem_size as nat).pad(
                (len * elem_size) as nat,
            ).push_scalar(len as u32),
            r.0 == final(self)@.size(),
            r.1 == old(self)@.start_vector(len as nat, elem_size as nat).size() + len * elem_size,
    {
        self.not_nested();
        assert(len <= len * elem_size) by (nonlinear_arith)
            requires
                elem_size > 0,
        ;
        self.start_vector(len, elem_size);
        let elems = self.reserve_elements(len, elem_size);
        let off = self.end_vector(len);
        (off, elems)
    }
}

} // verus!

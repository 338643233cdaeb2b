//! Properties of the builder that hold across its operations.
use vstd::prelude::*;
use crate::endian::{Endian, le_encode, le_decode, lemma_le_round_trip, lemma_le_encode_len};
use crate::reader::{read_u16, read_u32, deref, field_slot, scalar_at, table_readable, vtable_index};
use crate::builder::{lemma_start_vector_aligned, max_nat, slot_bytes, slot_value, FieldLoc};
use crate::downward::zeros;
use vstd::arithmetic::power::pow;
use crate::builder::{
    OrdTable, sorted_by_key,
    BuilderModel, find_vtable, is_pow2, padding, lemma_padding, lemma_find_prefix, lemma_suffix_stable,
    vtable_at,
};

verus! {

/// A power of two that is at least `b`, itself a power of two, is a multiple of `b`.
pub proof fn lemma_pow2_multiple(a: nat, b: nat)
    requires
        is_pow2(a),
        is_pow2(b),
        b <= a,
    ensures
        a % b == 0,
    decreases a,
{
    if a == b {
    } else if b == 1 {
    } else {
        assert(a > 1 && b > 1);
        lemma_pow2_multiple(a / 2, b / 2);
        assert((a / 2) % (b / 2) == 0);
        let q = (a / 2) / (b / 2);
        vstd::arithmetic::div_mod::lemma_fundamental_div_mod((a / 2) as int, (b / 2) as int);
        assert(a == b * q) by (nonlinear_arith)
            requires
                a == 2 * (a / 2),
                b == 2 * (b / 2),
                a / 2 == (b / 2) * q,
        ;
        vstd::arithmetic::div_mod::lemma_mod_multiples_basic(q as int, b as int);
        assert(q * b == b * q) by (nonlinear_arith);
    }
}

/// A finished buffer's size is a multiple of the largest alignment used to build it.
pub proof fn lemma_finished_size_aligned(m: BuilderModel, root: nat)
    requires
        is_pow2(m.min_align),
    ensures
        m.finish(root).size() % m.finish(root).min_align == 0,
        is_pow2(m.finish(root).min_align),
{
    let ma = m.min_align;
    let p = m.pre_align(4, ma);
    lemma_padding(m.size() + 4, ma);
    assert(p.size() == m.size() + padding(m.size() + 4, ma));
    assert((p.size() + 4) % ma == 0);
    lemma_padding(p.size(), 4);
    reveal_with_fuel(is_pow2, 3);
    let fin = m.finish(root);
    let a = p.align(4);
    let word = p.refer_value(root) as u32;
    word.lemma_round_trip();
    lemma_padding(a.size(), 4);
    assert(a.size() == p.size() + padding(p.size(), 4));
    assert(padding(a.size(), 4) == 0);
    assert(fin == a.push_scalar(word));
    if ma >= 4 {
        lemma_pow2_multiple(ma, 4);
        assert(p.size() % 4 == 0) by {
            vstd::arithmetic::div_mod::lemma_mod_mod((p.size() + 4) as int, 4, ma as int / 4);
            vstd::arithmetic::div_mod::lemma_fundamental_div_mod(ma as int, 4);
            assert(ma == 4 * (ma / 4));
        }
        assert(padding(p.size(), 4) == 0);
        assert(fin.min_align == ma);
        assert(fin.size() == p.size() + 4);
    } else {
        assert(ma == 1 || ma == 2);
        assert(fin.min_align == 4);
        assert(fin.size() == p.size() + padding(p.size(), 4) + 4);
    }
}

/// Looking a vtable up among positions inside `b` gives the same answer after more
/// bytes are added in front of `b`.
proof fn lemma_find_suffix(y: Seq<u8>, b: Seq<u8>, pool: Seq<u32>, vt: Seq<u8>)
    requires
        forall|i: int| 0 <= i < pool.len() ==> pool[i] <= b.len(),
    ensures
        find_vtable(y + b, pool, vt) == find_vtable(b, pool, vt),
    decreases pool.len(),
{
    if pool.len() > 0 {
        lemma_find_suffix(y, b, pool.drop_last(), vt);
        let p = pool.last() as int;
        if vt.len() <= p {
            lemma_suffix_stable(y, b, p, vt.len() as int);
        }
        assert(vtable_at(y + b, p, vt) == vtable_at(b, p, vt));
    }
}

/// Tables with identical vtables share one. After `end_table` writes a new vtable,
/// a later table whose vtable has the same bytes links to that same vtable, and its
/// `end_table` writes no vtable of its own; whatever was written in between (`x`)
/// does not matter.
pub proof fn lemma_vtable_shared(
    m: BuilderModel,
    start: nat,
    num_fields: nat,
    x: Seq<u8>,
    more_vtables: Seq<u32>,
    later: BuilderModel,
    later_start: nat,
    later_num_fields: nat,
)
    requires
        m.can_end_table(start, num_fields),
        find_vtable(m.bytes, m.vtables, m.vtable_bytes(start, num_fields)) is None,
        forall|i: int| 0 <= i < m.vtables.len() ==> m.vtables[i] <= m.bytes.len(),
        later.bytes == x + m.end_table(start, num_fields).bytes,
        later.vtables == m.end_table(start, num_fields).vtables + more_vtables,
        later.vtable_bytes(later_start, later_num_fields) == m.vtable_bytes(start, num_fields),
    ensures
        later.table_vtable(later_start, later_num_fields) == m.table_vtable(start, num_fields),
        find_vtable(later.bytes, later.vtables, later.vtable_bytes(later_start, later_num_fields))
            is Some,
{
    let vt = m.vtable_bytes(start, num_fields);
    let e = m.end_table(start, num_fields);
    let k = m.vtables.len() as int;
    let link = (m.table_vtable(start, num_fields) - m.table_pos()) as i32;
    link.lemma_round_trip();
    let table = link.le_bytes() + crate::downward::zeros(padding(m.size(), 4)) + m.bytes;
    assert(e.bytes == vt + table);
    let p = m.table_vtable(start, num_fields);
    crate::endian::lemma_le_encode_len((num_fields + 2) * 2, 2);
    crate::endian::lemma_le_encode_len((m.table_pos() - start) as nat, 2);
    assert(p == m.table_pos() + vt.len());
    assert(p <= crate::downward::MAX_BUFFER_SIZE);
    assert(e.vtables == m.vtables.push(p as u32));
    assert(e.bytes.len() == p);
    // The earlier positions do not hold this vtable, in the later bytes either.
    assert(later.vtables.take(k) =~= m.vtables);
    assert(later.bytes =~= (x + vt + table.subrange(0, table.len() - m.bytes.len())) + m.bytes);
    lemma_find_suffix(x + vt + table.subrange(0, table.len() - m.bytes.len()), m.bytes, m.vtables, vt);
    // The new position holds it.
    assert(later.vtables[k] == p as u32);
    lemma_suffix_stable(x, e.bytes, p as int, vt.len() as int);
    assert(e.bytes.subrange(0, vt.len() as int) =~= vt);
    assert(vtable_at(later.bytes, p as int, vt));
    assert(later.vtables.take(k + 1).drop_last() =~= later.vtables.take(k));
    assert(later.vtables.take(k + 1).last() == p as u32);
    let y = x + vt + table.subrange(0, table.len() - m.bytes.len());
    assert(find_vtable(y + m.bytes, m.vtables, vt) is None);
    assert(find_vtable(later.bytes, later.vtables.take(k), vt) is None);
    assert(vtable_at(later.bytes, later.vtables.take(k + 1).last() as int, vt));
    assert(later.vtables.take(k + 1).len() == k + 1);
    assert(find_vtable(later.bytes, later.vtables.take(k + 1), vt) == Some(k));
    lemma_find_prefix(later.bytes, later.vtables, vt, k + 1);
}

/// A string reads back. Right after `create_string(s)` the arena starts with the
/// 32-bit length of `s`, then the bytes of `s`, then a NUL byte; bytes written in
/// front of it later (`x`, such as the root offset) move it but do not change it.
pub proof fn lemma_string_round_trip(m: BuilderModel, s: Seq<u8>, x: Seq<u8>)
    requires
        s.len() <= u32::MAX,
    ensures
        ({
            let b = x + m.pre_align(s.len() + 1, 4).pad(1).push_bytes(s).push_scalar(
                s.len() as u32,
            ).bytes;
            let at = x.len() as int;
            &&& read_u32(b, at) == s.len()
            &&& b.subrange(at + 4, at + 4 + s.len()) == s
            &&& b[at + 4 + s.len()] == 0
        }),
{
    let m1 = m.pre_align(s.len() + 1, 4);
    let m2 = m1.pad(1).push_bytes(s);
    let n = s.len() as u32;
    lemma_padding(m.size() + s.len() + 1, 4);
    assert(m2.size() == m.size() + padding(m.size() + s.len() + 1, 4) + 1 + s.len());
    assert(m2.size() % 4 == 0);
    assert(padding(m2.size(), 4) == 0);
    n.lemma_round_trip();
    lemma_le_round_trip(n as nat, 4);
    reveal_with_fuel(pow, 5);
    assert(pow(256, 4) == 0x1_0000_0000);
    let word = n.le_bytes();
    let b = x + m2.push_scalar(n).bytes;
    let at = x.len() as int;
    assert(b =~= x + word + s + seq![0u8] + zeros(padding(m.size() + s.len() + 1, 4)) + m.bytes);
    assert(b.subrange(at, at + 4) =~= word);
    assert(b.subrange(at + 4, at + 4 + s.len()) =~= s);
}

/// A scalar field reads back. A table with the one field `4` (the first field) set
/// to `x`, with default `def`, ended and finished on a new builder, reads `x` back
/// through its vtable; the field is present exactly when `x` differs from `def` or
/// defaults are forced.
#[verifier::rlimit(80)]
pub proof fn lemma_scalar_round_trip<T: Endian>(x: T, def: T, force_defaults: bool)
    ensures
        ({
            let built = BuilderModel::empty(force_defaults).add_scalar(4, x, def);
            let s = built.end_table(0, 1).finish(built.table_pos()).bytes;
            let t = deref(s, 0);
            &&& table_readable(s, t, 4)
            &&& (field_slot(s, t, 4) != 0) == (x != def || force_defaults)
            &&& x == if field_slot(s, t, 4) == 0 {
                def
            } else {
                scalar_at::<T>(s, t + field_slot(s, t, 4))
            }
        }),
{
    x.lemma_round_trip();
    reveal_with_fuel(pow, 5);
    reveal_with_fuel(is_pow2, 4);
    let m0 = BuilderModel::empty(force_defaults);
    let built = m0.add_scalar(4, x, def);
    let written = !(x == def && !force_defaults);
    let w = T::width();
    assert(padding(0, w) == 0);
    let xb = if written { x.le_bytes() } else { Seq::<u8>::empty() };
    assert(built.bytes =~= xb);
    assert(built.fields =~= if written {
        seq![FieldLoc { off: w as u32, id: 4 }]
    } else {
        Seq::<FieldLoc>::empty()
    });
    assert(is_pow2(built.min_align));
    assert(built.min_align <= 8);
    let nx = xb.len();
    let pad1 = padding(nx, 4);
    let tp = built.table_pos();
    assert(tp == nx + pad1 + 4);
    assert(tp <= 16);
    let slot = slot_value(built.fields, 4, tp as int);
    assert(slot == if written { tp - nx } else { 0 });
    lemma_le_encode_len(6, 2);
    lemma_le_encode_len(tp, 2);
    lemma_le_encode_len(slot as nat, 2);
    assert(slot_bytes(built.fields, 1, tp as int) =~= le_encode(slot as nat, 2));
    let vt = built.vtable_bytes(0, 1);
    assert(vt =~= le_encode(6, 2) + le_encode(tp, 2) + le_encode(slot as nat, 2));
    assert(find_vtable(built.bytes, built.vtables, vt) is None);
    let e = built.end_table(0, 1);
    let six: i32 = 6;
    six.lemma_round_trip();
    assert(built.table_vtable(0, 1) == tp + 6);
    assert(e.bytes =~= vt + six.le_bytes() + zeros(pad1) + xb);
    let ma = e.min_align;
    assert(ma == max_nat(built.min_align, 4));
    assert(ma == 4 || ma == 8);
    let p = e.pre_align(4, ma);
    let pad2 = padding(e.size() + 4, ma);
    let pad3 = padding(p.size(), 4);
    let r = p.refer_value(tp);
    assert(r == 10 + pad2 + pad3);
    lemma_padding(e.size() + 4, ma);
    lemma_padding(p.size(), 4);
    let word = r as u32;
    word.lemma_round_trip();
    lemma_le_round_trip(r, 4);
    let fin = e.finish(tp);
    assert(fin.bytes =~= word.le_bytes() + zeros(pad3) + zeros(pad2) + e.bytes);
    let sb = fin.bytes;
    // The root offset.
    assert(sb.subrange(0, 4) =~= le_encode(r, 4));
    assert(read_u32(sb, 0) == r);
    let t = r as int;
    // The table's link to its vtable.
    assert(sb.subrange(t, t + 4) =~= six.le_bytes());
    assert(vtable_index(sb, t) == t - 6);
    let vti = t - 6;
    lemma_le_round_trip(6, 2);
    lemma_le_round_trip(slot as nat, 2);
    assert(pow(256, 2) == 0x1_0000);
    assert(6nat % 0x1_0000nat == 6);
    assert((slot as nat) % 0x1_0000nat == slot);
    assert(sb.subrange(vti, vti + 2) =~= le_encode(6, 2));
    assert(read_u16(sb, vti) == 6);
    assert(sb.subrange(vti + 4, vti + 6) =~= le_encode(slot as nat, 2));
    assert(read_u16(sb, vti + 4) == slot);
    assert(field_slot(sb, t, 4) == slot);
    if written {
        let at = t + slot;
        assert(sb.subrange(at, at + w) =~= x.le_bytes());
    }
}

/// The little-endian bytes of the scalars of `v`, one after another.
pub open spec fn le_concat<T: Endian>(v: Seq<T>) -> Seq<u8>
    decreases v.len(),
{
    if v.len() == 0 {
        Seq::empty()
    } else {
        le_concat(v.drop_last()) + v.last().le_bytes()
    }
}

proof fn lemma_le_concat_index<T: Endian>(v: Seq<T>, i: int)
    requires
        0 <= i < v.len(),
    ensures
        le_concat(v).len() == v.len() * T::width(),
        le_concat(v).subrange(i * T::width(), i * T::width() + T::width()) == v[i].le_bytes(),
    decreases v.len(),
{
    let w = T::width();
    let n = v.len();
    v.last().lemma_round_trip();
    v[i].lemma_round_trip();
    if n == 1 {
        assert(v.drop_last() =~= Seq::<T>::empty());
        assert(le_concat(v.drop_last()) == Seq::<u8>::empty());
        assert(le_concat(v) == le_concat(v.drop_last()) + v.last().le_bytes());
        assert(le_concat(v) =~= v.last().le_bytes());
    } else {
        let d = v.drop_last();
        if i < n - 1 {
            lemma_le_concat_index(d, i);
        } else {
            lemma_le_concat_index(d, 0);
        }
        assert((n - 1) * w + w == n * w) by (nonlinear_arith);
        if i < n - 1 {
            assert(i * w + w <= (n - 1) * w) by (nonlinear_arith)
                requires
                    i < n - 1,
            ;
            assert(le_concat(v).subrange(i * w, i * w + w) =~= le_concat(d).subrange(
                i * w,
                i * w + w,
            ));
            assert(d[i] == v[i]);
        } else {
            assert(le_concat(v).subrange(i * w, i * w + w) =~= v.last().le_bytes());
        }
    }
}

proof fn lemma_le_concat_len<T: Endian>(v: Seq<T>)
    ensures
        le_concat(v).len() == v.len() * T::width(),
{
    if v.len() > 0 {
        lemma_le_concat_index(v, 0);
    }
}

/// Pushing scalars onto an arena aligned for them adds exactly their bytes.
proof fn lemma_push_scalars_aligned<T: Endian>(m: BuilderModel, v: Seq<T>)
    requires
        T::width() > 0,
        m.size() % T::width() == 0,
    ensures
        m.push_scalars_rev(v).bytes == le_concat(v) + m.bytes,
    decreases v.len(),
{
    if v.len() > 0 {
        let w = T::width();
        let last = v.last();
        last.lemma_round_trip();
        let m1 = m.push_scalar(last);
        vstd::arithmetic::div_mod::lemma_mod_self_0(w as int);
        assert(padding(m.size(), w) == 0);
        assert(m1.bytes =~= last.le_bytes() + m.bytes);
        assert(m1.size() == m.size() + w);
        let q = m.size() as int / (w as int);
        vstd::arithmetic::div_mod::lemma_fundamental_div_mod(m.size() as int, w as int);
        assert(m.size() + w == (q + 1) * w) by (nonlinear_arith)
            requires
                m.size() == w * q + m.size() % w,
                m.size() % w == 0,
        ;
        vstd::arithmetic::div_mod::lemma_mod_multiples_basic(q + 1, w as int);
        assert(m1.size() % w == 0);
        lemma_push_scalars_aligned(m1, v.drop_last());
        assert(le_concat(v.drop_last()) + m1.bytes =~= le_concat(v) + m.bytes);
    }
}

/// A vector of scalars reads back. Right after `create_vector(v)` the arena starts
/// with the 32-bit length of `v` followed by its elements in order; bytes written in
/// front of it later (`x`) move it but do not change it.
pub proof fn lemma_vector_round_trip<T: Endian>(m: BuilderModel, v: Seq<T>, x: Seq<u8>)
    requires
        v.len() <= u32::MAX,
    ensures
        ({
            let b = x + m.create_vector(v).bytes;
            let at = x.len() as int;
            &&& read_u32(b, at) == v.len()
            &&& forall|i: int|
                0 <= i < v.len() ==> #[trigger] scalar_at::<T>(b, at + 4 + i * T::width())
                    == v[i]
        }),
{
    let w = T::width();
    let n = v.len();
    T::lemma_width();
    let s = m.start_vector(n, w);
    lemma_start_vector_aligned(m, n, w);
    lemma_push_scalars_aligned(s, v);
    lemma_le_concat_len(v);
    let e = s.push_scalars_rev(v);
    assert(e.size() == s.size() + n * w);
    assert(padding(e.size(), 4) == 0);
    let len_word = n as u32;
    len_word.lemma_round_trip();
    lemma_le_round_trip(n, 4);
    reveal_with_fuel(pow, 5);
    assert(pow(256, 4) == 0x1_0000_0000);
    let b = x + m.create_vector(v).bytes;
    let at = x.len() as int;
    assert(b =~= x + len_word.le_bytes() + le_concat(v) + s.bytes);
    assert(b.subrange(at, at + 4) =~= len_word.le_bytes());
    assert forall|i: int| 0 <= i < v.len() implies #[trigger] scalar_at::<T>(
        b,
        at + 4 + i * T::width(),
    ) == v[i] by {
        lemma_le_concat_index(v, i);
        v[i].lemma_round_trip();
        assert(i * w + w <= n * w) by (nonlinear_arith)
            requires
                i < n,
        ;
        assert(b.subrange(at + 4 + i * w, at + 4 + i * w + w) =~= le_concat(v).subrange(
            i * w,
            i * w + w,
        ));
    }
}

/// The offset words that `push_offsets_rev(v)` writes onto an aligned arena of size
/// `size`: the word for `v[i]` holds its distance to the target.
pub open spec fn offset_words(size: nat, v: Seq<u32>) -> Seq<u8>
    decreases v.len(),
{
    if v.len() == 0 {
        Seq::empty()
    } else {
        offset_words(size + 4, v.drop_last()) + le_encode((size + 4 - v.last()) as nat, 4)
    }
}

proof fn lemma_offset_words_index(size: nat, v: Seq<u32>, i: int)
    requires
        0 <= i < v.len(),
    ensures
        offset_words(size, v).len() == 4 * v.len(),
        offset_words(size, v).subrange(4 * i, 4 * i + 4) == le_encode(
            (size + 4 * (v.len() - i) - v[i]) as nat,
            4,
        ),
    decreases v.len(),
{
    let n = v.len();
    let last_word = le_encode((size + 4 - v.last()) as nat, 4);
    lemma_le_encode_len((size + 4 - v.last()) as nat, 4);
    if n == 1 {
        assert(v.drop_last().len() == 0);
        assert(offset_words(size + 4, v.drop_last()) =~= Seq::<u8>::empty());
        assert(offset_words(size, v) =~= last_word);
    } else {
        let d = v.drop_last();
        if i < n - 1 {
            lemma_offset_words_index(size + 4, d, i);
            assert(offset_words(size, v).subrange(4 * i, 4 * i + 4) =~= offset_words(
                size + 4,
                d,
            ).subrange(4 * i, 4 * i + 4));
        } else {
            lemma_offset_words_index(size + 4, d, 0);
            assert(offset_words(size, v).subrange(4 * i, 4 * i + 4) =~= last_word);
        }
    }
}

proof fn lemma_offset_words_len(size: nat, v: Seq<u32>)
    ensures
        offset_words(size, v).len() == 4 * v.len(),
{
    if v.len() > 0 {
        lemma_offset_words_index(size, v, 0);
    }
}

/// Pushing offsets onto an aligned arena adds exactly their words.
proof fn lemma_push_offsets_aligned(m: BuilderModel, v: Seq<u32>)
    requires
        m.size() % 4 == 0,
        forall|i: int| 0 <= i < v.len() ==> #[trigger] v[i] <= m.size(),
        m.size() + 4 * v.len() <= u32::MAX,
    ensures
        m.push_offsets_rev(v).bytes == offset_words(m.size(), v) + m.bytes,
    decreases v.len(),
{
    if v.len() > 0 {
        let t = v.last();
        let word = (m.size() + 4 - t) as u32;
        word.lemma_round_trip();
        assert(padding(m.size(), 4) == 0);
        assert(m.refer_value(t as nat) == m.size() + 4 - t);
        let m1 = m.push_offset(t as nat);
        assert(m1.bytes =~= word.le_bytes() + m.bytes);
        lemma_push_offsets_aligned(m1, v.drop_last());
        assert(offset_words(m1.size(), v.drop_last()) + m1.bytes =~= offset_words(m.size(), v)
            + m.bytes);
    }
}

/// A vector of offsets reads back. Right after `create_vector_of_offsets(v)` the
/// arena starts with the 32-bit length of `v`, and element `i`, dereferenced,
/// leads to the object at distance `v[i]` from the end, as it did before; bytes
/// written in front later (`x`) do not change that.
pub proof fn lemma_offset_vector_round_trip(m: BuilderModel, v: Seq<u32>, x: Seq<u8>)
    requires
        forall|i: int| 0 <= i < v.len() ==> #[trigger] v[i] <= m.size(),
        m.size() + 16 * v.len() + 32 <= u32::MAX,
    ensures
        ({
            let b = x + m.create_vector_of_offsets(v).bytes;
            let at = x.len() as int;
            &&& read_u32(b, at) == v.len()
            &&& forall|i: int|
                0 <= i < v.len() ==> #[trigger] deref(b, at + 4 + 4 * i) == b.len() - v[i]
        }),
{
    let n = v.len();
    let s = m.start_vector(n, 4);
    lemma_start_vector_aligned(m, n, 4);
    lemma_padding(m.size() + n * 4, 4);
    lemma_padding(m.pre_align(n * 4, 4).size() + n * 4, 4);
    assert(s.size() < m.size() + 8);
    lemma_push_offsets_aligned(s, v);
    lemma_offset_words_len(s.size(), v);
    let e = s.push_offsets_rev(v);
    assert(e.size() == s.size() + 4 * n);
    assert(padding(e.size(), 4) == 0);
    let len_word = n as u32;
    len_word.lemma_round_trip();
    lemma_le_round_trip(n, 4);
    reveal_with_fuel(pow, 5);
    assert(pow(256, 4) == 0x1_0000_0000);
    let b = x + m.create_vector_of_offsets(v).bytes;
    let at = x.len() as int;
    assert(b =~= x + len_word.le_bytes() + offset_words(s.size(), v) + s.bytes);
    assert(b.subrange(at, at + 4) =~= len_word.le_bytes());
    assert forall|i: int| 0 <= i < v.len() implies #[trigger] deref(b, at + 4 + 4 * i) == b.len()
        - v[i] by {
        lemma_offset_words_index(s.size(), v, i);
        let val = (s.size() + 4 * (n - i) - v[i]) as nat;
        lemma_le_round_trip(val, 4);
        assert(b.subrange(at + 4 + 4 * i, at + 4 + 4 * i + 4) =~= offset_words(s.size(), v).subrange(
            4 * i,
            4 * i + 4,
        ));
        assert(read_u32(b, at + 4 + 4 * i) == val);
    }
}

/// A vector of structs reads back. Right after `create_vector_of_structs` of the
/// struct bytes `v` (`count` structs, aligned to `align`), the arena starts with
/// `count` followed by the bytes of `v`.
pub proof fn lemma_struct_vector_round_trip(
    m: BuilderModel,
    v: Seq<u8>,
    count: nat,
    align: nat,
    x: Seq<u8>,
)
    requires
        align == 1 || align == 2 || align == 4 || align == 8,
        v.len() % align == 0,
        count <= u32::MAX,
    ensures
        ({
            let b = x + m.start_vector(v.len() / align, align).push_bytes(v).push_scalar(
                count as u32,
            ).bytes;
            let at = x.len() as int;
            &&& read_u32(b, at) == count
            &&& b.subrange(at + 4, at + 4 + v.len()) == v
        }),
{
    let n = v.len() / align;
    vstd::arithmetic::div_mod::lemma_fundamental_div_mod(v.len() as int, align as int);
    assert(n * align == v.len()) by (nonlinear_arith)
        requires
            v.len() == align * (v.len() / align) + v.len() % align,
            v.len() % align == 0,
            n == v.len() / align,
    ;
    lemma_start_vector_aligned(m, n, align);
    let e = m.start_vector(n, align).push_bytes(v);
    assert(padding(e.size(), 4) == 0);
    let word = count as u32;
    word.lemma_round_trip();
    lemma_le_round_trip(count, 4);
    reveal_with_fuel(pow, 5);
    assert(pow(256, 4) == 0x1_0000_0000);
    let b = x + e.push_scalar(word).bytes;
    let at = x.len() as int;
    assert(b =~= x + word.le_bytes() + v + m.start_vector(n, align).bytes);
    assert(b.subrange(at, at + 4) =~= word.le_bytes());
    assert(b.subrange(at + 4, at + 4 + v.len()) =~= v);
}

/// A vector of tables sorted by key is ordered across all pairs, not just between
/// neighbours: each earlier table's key is no greater than any later one's.
pub proof fn lemma_sorted_all_pairs<T: OrdTable>(bytes: Seq<u8>, v: Seq<u32>, i: int, j: int)
    requires
        sorted_by_key::<T>(bytes, v),
        0 <= i <= j < v.len(),
    ensures
        T::key_le(bytes, bytes.len() - v[i], bytes.len() - v[j]),
    decreases j - i,
{
    if i == j {
        T::lemma_key_total(bytes, bytes.len() - v[i], bytes.len() - v[i]);
    } else {
        lemma_sorted_all_pairs::<T>(bytes, v, i, j - 1);
        assert(T::key_le(bytes, bytes.len() - v[j - 1], bytes.len() - v[j]));
        T::lemma_key_trans(bytes, bytes.len() - v[i], bytes.len() - v[j - 1], bytes.len() - v[j]);
    }
}

/// Finishing keeps what was written: the bytes before `finish` end the finished
/// buffer unchanged, and the root offset at its start leads to the object at
/// distance `root` from the end.
pub proof fn lemma_finish_root(m: BuilderModel, root: nat)
    requires
        root <= m.size(),
        is_pow2(m.min_align),
        m.size() + m.min_align + 8 <= u32::MAX,
    ensures
        ({
            let fin = m.finish(root).bytes;
            &&& fin.len() >= m.size() + 4
            &&& fin.subrange(fin.len() - m.size(), fin.len() as int) == m.bytes
            &&& deref(fin, 0) == fin.len() - root
        }),
{
    let ma = m.min_align;
    let p = m.pre_align(4, ma);
    reveal_with_fuel(is_pow2, 2);
    lemma_padding(m.size() + 4, ma);
    let a = p.align(4);
    lemma_padding(p.size(), 4);
    let word = p.refer_value(root) as u32;
    word.lemma_round_trip();
    lemma_le_round_trip(word as nat, 4);
    reveal_with_fuel(pow, 5);
    assert(pow(256, 4) == 0x1_0000_0000);
    assert(padding(a.size(), 4) == 0);
    let fin = m.finish(root).bytes;
    let pre = word.le_bytes() + zeros(padding(p.size(), 4)) + zeros(padding(m.size() + 4, ma));
    assert(fin =~= pre + m.bytes);
    assert(fin.subrange(fin.len() - m.size(), fin.len() as int) =~= m.bytes);
    assert(fin.subrange(0, 4) =~= word.le_bytes());
}

/// A string reads back from a finished buffer. After `create_string(s)` and
/// `finish` with the string as root, the root offset leads to the string's length,
/// which is that of `s`, followed by the bytes of `s` and a NUL byte.
pub proof fn lemma_finished_string_reads_back(m: BuilderModel, s: Seq<u8>)
    requires
        is_pow2(m.min_align),
        m.size() + s.len() + m.min_align + 32 <= u32::MAX,
    ensures
        ({
            let c = m.pre_align(s.len() + 1, 4).pad(1).push_bytes(s).push_scalar(s.len() as u32);
            let fin = c.finish(c.size()).bytes;
            let t = deref(fin, 0);
            &&& read_u32(fin, t) == s.len()
            &&& fin.subrange(t + 4, t + 4 + s.len()) == s
            &&& fin[t + 4 + s.len()] == 0
        }),
{
    let c = m.pre_align(s.len() + 1, 4).pad(1).push_bytes(s).push_scalar(s.len() as u32);
    let n = s.len() as u32;
    n.lemma_round_trip();
    lemma_padding(m.size() + s.len() + 1, 4);
    let m2 = m.pre_align(s.len() + 1, 4).pad(1).push_bytes(s);
    lemma_padding(m2.size(), 4);
    reveal_with_fuel(is_pow2, 4);
    assert(is_pow2(4));
    assert(is_pow2(c.min_align)) by {
        assert(c.min_align == max_nat(max_nat(m.min_align, 4), 4));
    }
    assert(c.min_align <= m.min_align + 4);
    lemma_finish_root(c, c.size());
    let fin = c.finish(c.size()).bytes;
    let x = fin.subrange(0, fin.len() - c.size());
    assert(fin =~= x + c.bytes);
    lemma_string_round_trip(m, s, x);
}

/// A vector of scalars reads back from a finished buffer. After `create_vector(v)`
/// and `finish` with the vector as root, the root offset leads to the vector's
/// length, which is that of `v`, and element `i` holds `v[i]`.
pub proof fn lemma_finished_vector_reads_back<T: Endian>(m: BuilderModel, v: Seq<T>)
    requires
        is_pow2(m.min_align),
        m.size() + v.len() * T::width() + m.min_align + 32 <= u32::MAX,
    ensures
        ({
            let c = m.create_vector(v);
            let fin = c.finish(c.size()).bytes;
            let t = deref(fin, 0);
            &&& read_u32(fin, t) == v.len()
            &&& forall|i: int|
                0 <= i < v.len() ==> #[trigger] scalar_at::<T>(fin, t + 4 + i * T::width()) == v[i]
        }),
{
    let c = m.create_vector(v);
    let w = T::width();
    let n = v.len();
    T::lemma_width();
    reveal_with_fuel(is_pow2, 4);
    let s = m.start_vector(n, w);
    lemma_padding(m.size() + n * w, 4);
    lemma_padding(m.pre_align(n * w, 4).size() + n * w, w);
    lemma_start_vector_aligned(m, n, w);
    lemma_push_scalars_aligned(s, v);
    lemma_le_concat_len(v);
    let e = s.push_scalars_rev(v);
    assert(padding(e.size(), 4) == 0);
    (n as u32).lemma_round_trip();
    assert(c.size() == e.size() + 4);
    assert(s.size() < m.size() + w + 4);
    assert(c.min_align == max_nat(max_nat(max_nat(m.min_align, 4), w), 4)) by {
        lemma_push_scalars_min_align(s, v);
    }
    assert(is_pow2(c.min_align));
    lemma_finish_root(c, c.size());
    let fin = c.finish(c.size()).bytes;
    let x = fin.subrange(0, fin.len() - c.size());
    assert(fin =~= x + c.bytes);
    lemma_vector_round_trip(m, v, x);
}

/// Pushing scalars raises the alignment to their width, or leaves it.
proof fn lemma_push_scalars_min_align<T: Endian>(m: BuilderModel, v: Seq<T>)
    requires
        m.min_align >= T::width(),
    ensures
        m.push_scalars_rev(v).min_align == m.min_align,
    decreases v.len(),
{
    if v.len() > 0 {
        lemma_push_scalars_min_align(m.push_scalar(v.last()), v.drop_last());
    }
}

/// The vtable of a table with one field `k` set: its size word and the slot of
/// field `k`, which points at the field's value where it was written.
proof fn lemma_single_field_vtable<T: Endian>(
    m: BuilderModel,
    k: nat,
    num_fields: nat,
    x: T,
    def: T,
)
    requires
        m.fields.len() == 0,
        is_pow2(m.min_align),
        k < num_fields,
        m.add_scalar((4 + 2 * k) as u16, x, def).can_end_table(m.size(), num_fields),
        m.size() + 2 * num_fields + m.min_align + 64 <= crate::downward::MAX_BUFFER_SIZE,
    ensures
        ({
            let f = 4 + 2 * k;
            let built = m.add_scalar(f as u16, x, def);
            let written = !(x == def && !m.force_defaults);
            let vt = built.vtable_bytes(m.size(), num_fields);
            let slot = if written { built.table_pos() - built.size() } else { 0 };
            &&& is_pow2(built.min_align)
            &&& built.min_align <= m.min_align + 8
            &&& le_decode(vt.subrange(0, 2)) == (num_fields + 2) * 2
            &&& le_decode(vt.subrange(f as int, f as int + 2)) == slot
            &&& vt.len() == (num_fields + 2) * 2
            &&& written ==> built.bytes.subrange(0, T::width() as int) == x.le_bytes()
            &&& written ==> 0 < slot < 0x10000
        }),
{
    let f = 4 + 2 * k;
    let fid = f as u16;
    x.lemma_round_trip();
    T::lemma_width();
    reveal_with_fuel(pow, 5);
    reveal_with_fuel(is_pow2, 4);
    assert(pow(256, 2) == 0x1_0000);
    let built = m.add_scalar(fid, x, def);
    let written = !(x == def && !m.force_defaults);
    let w = T::width();
    lemma_padding(m.size(), w);
    let xb = if written { x.le_bytes() } else { Seq::<u8>::empty() };
    let xpad = if written { zeros(padding(m.size(), w)) } else { Seq::<u8>::empty() };
    assert(built.bytes =~= xb + xpad + m.bytes);
    let off = built.size();
    assert(built.fields =~= if written {
        seq![FieldLoc { off: off as u32, id: fid }]
    } else {
        Seq::<FieldLoc>::empty()
    });
    assert(is_pow2(built.min_align));
    assert(built.min_align <= m.min_align + 8);
    let start = m.size();
    let tp = built.table_pos();
    let slot = slot_value(built.fields, f as int, tp as int);
    assert(slot == if written { tp - off } else { 0 });
    assert(written ==> tp - off < 0x10000);
    let vt = built.vtable_bytes(start, num_fields);
    let vts = (num_fields + 2) * 2;
    lemma_le_encode_len(vts, 2);
    lemma_le_encode_len((tp - start) as nat, 2);
    assert(vt.len() == vts);
    // The slot of field `k` inside the vtable.
    lemma_le_encode_len(slot as nat, 2);
    assert(vt.subrange(f as int, f as int + 2) =~= le_encode(slot as nat, 2)) by {
        assert forall|j: int| 0 <= j < 2 implies #[trigger] vt.subrange(f as int, f as int + 2)[j] == le_encode(
            slot as nat,
            2,
        )[j] by {
            let jj = f - 4 + j;
            assert(4 + 2 * (jj / 2) == f);
            assert(jj % 2 == j);
        }
    }
    assert(vt.subrange(0, 2) =~= le_encode(vts, 2));
    lemma_le_round_trip(vts, 2);
    lemma_le_round_trip(slot as nat, 2);
    assert(written ==> built.bytes.subrange(0, w as int) =~= x.le_bytes());
}

/// A scalar field reads back in general. On any builder with no table open, a
/// table of `num_fields` fields whose field `k` is set to `x` (default `def`), ended
/// and finished as root, reads `x` back through its vtable, whether that vtable
/// is new or shared with an earlier table; the field is present exactly when `x`
/// differs from `def` or defaults are forced.
#[verifier::rlimit(100)]
pub proof fn lemma_scalar_field_reads_back<T: Endian>(
    m: BuilderModel,
    k: nat,
    num_fields: nat,
    x: T,
    def: T,
)
    requires
        m.fields.len() == 0,
        is_pow2(m.min_align),
        k < num_fields,
        m.add_scalar((4 + 2 * k) as u16, x, def).can_end_table(m.size(), num_fields),
        m.size() + 2 * num_fields + m.min_align + 64 <= crate::downward::MAX_BUFFER_SIZE,
    ensures
        ({
            let f = 4 + 2 * k;
            let built = m.add_scalar(f as u16, x, def);
            let s = built.end_table(m.size(), num_fields).finish(built.table_pos()).bytes;
            let t = deref(s, 0);
            &&& table_readable(s, t, f as int)
            &&& (field_slot(s, t, f as int) != 0) == (x != def || m.force_defaults)
            &&& x == if field_slot(s, t, f as int) == 0 {
                def
            } else {
                scalar_at::<T>(s, t + field_slot(s, t, f as int))
            }
        }),
{
    let f = 4 + 2 * k;
    let fid = f as u16;
    x.lemma_round_trip();
    lemma_single_field_vtable(m, k, num_fields, x, def);
    let built = m.add_scalar(fid, x, def);
    let written = !(x == def && !m.force_defaults);
    let w = T::width();
    let start = m.size();
    let tp = built.table_pos();
    let off = built.size();
    let slot = if written { tp - off } else { 0 };
    let vt = built.vtable_bytes(start, num_fields);
    let vts = (num_fields + 2) * 2;
    let e = built.end_table(start, num_fields);
    let q = built.table_vtable(start, num_fields);
    let link = (q - tp) as i32;
    lemma_end_table_layout(built, start, num_fields);
    lemma_padding(built.size(), 4);
    assert(e.min_align == max_nat(built.min_align, 4));
    assert(is_pow2(4)) by {
        reveal_with_fuel(is_pow2, 3);
    }
    assert(is_pow2(e.min_align));
    lemma_finish_root(e, tp);
    let sb = e.finish(tp).bytes;
    let big = sb.len() as int;
    let xs = sb.subrange(0, big - e.size());
    assert(sb =~= xs + e.bytes);
    let t = big - tp;
    assert(deref(sb, 0) == t);
    lemma_suffix_stable(xs, e.bytes, tp as int, 4);
    assert(sb.subrange(t, t + 4) == link.le_bytes());
    link.lemma_round_trip();
    assert(vtable_index(sb, t) == big - q);
    let vti = big - q;
    lemma_suffix_stable(xs, e.bytes, q as int, vt.len() as int);
    assert(sb.subrange(vti, vti + vt.len()) == vt);
    assert(sb.subrange(vti, vti + 2) =~= vt.subrange(0, 2));
    assert(read_u16(sb, vti) == vts);
    assert(sb.subrange(vti + f, vti + f + 2) =~= vt.subrange(f as int, f as int + 2));
    assert(read_u16(sb, vti + f) == slot);
    assert(f < vts);
    assert(field_slot(sb, t, f as int) == slot);
    if written {
        let at = t + slot;
        assert(at == big - off);
        let pre = sb.subrange(0, big - built.size());
        assert(sb =~= pre + built.bytes) by {
            assert(e.bytes =~= e.bytes.subrange(0, e.size() - built.size()) + built.bytes);
        }
        lemma_suffix_stable(pre, built.bytes, off as int, w as int);
    }
}

/// Where `end_table` puts things: the table's link at `table_pos`, the vtable it
/// links to inside the bytes, and the earlier bytes unchanged at the end.
proof fn lemma_end_table_layout(b: BuilderModel, start: nat, num_fields: nat)
    requires
        b.can_end_table(start, num_fields),
    ensures
        ({
            let e = b.end_table(start, num_fields);
            let q = b.table_vtable(start, num_fields);
            let vt = b.vtable_bytes(start, num_fields);
            let tp = b.table_pos();
            &&& 4 <= tp <= e.size()
            &&& q <= e.size()
            &&& q <= crate::downward::MAX_BUFFER_SIZE
            &&& vtable_at(e.bytes, q as int, vt)
            &&& e.bytes.subrange(e.size() - tp, e.size() - tp + 4) == ((q - tp) as i32).le_bytes()
            &&& e.bytes == e.bytes.subrange(0, e.size() - b.size()) + b.bytes
        }),
{
    let e = b.end_table(start, num_fields);
    let q = b.table_vtable(start, num_fields);
    let vt = b.vtable_bytes(start, num_fields);
    let tp = b.table_pos();
    let link = (q - tp) as i32;
    lemma_le_encode_len((num_fields + 2) * 2, 2);
    lemma_le_encode_len((tp - start) as nat, 2);
    lemma_padding(b.size(), 4);
    let table = link.le_bytes() + zeros(padding(b.size(), 4)) + b.bytes;
    match find_vtable(b.bytes, b.vtables, vt) {
        Some(i) => {
            lemma_find_is_match(b.bytes, b.vtables, vt);
            link.lemma_round_trip();
            assert(e.bytes == table);
            let pre = link.le_bytes() + zeros(padding(b.size(), 4));
            assert(e.bytes =~= pre + b.bytes);
            lemma_suffix_stable(pre, b.bytes, q as int, vt.len() as int);
            assert(e.bytes.subrange(e.size() - tp, e.size() - tp + 4) =~= link.le_bytes());
            assert(e.bytes.subrange(0, e.size() - b.size()) =~= pre);
            assert(q <= e.size());
            assert(vtable_at(e.bytes, q as int, vt));
        },
        None => {
            link.lemma_round_trip();
            assert(e.bytes == vt + table);
            assert(e.bytes.subrange(0, vt.len() as int) =~= vt);
            assert(e.bytes.subrange(e.size() - tp, e.size() - tp + 4) =~= link.le_bytes());
            assert(e.bytes =~= e.bytes.subrange(0, e.size() - b.size()) + b.bytes);
            assert(q == e.size());
            assert(vtable_at(e.bytes, q as int, vt));
        },
    }
}

/// The position that `find_vtable` picks holds the vtable.
proof fn lemma_find_is_match(bytes: Seq<u8>, pool: Seq<u32>, vt: Seq<u8>)
    requires
        find_vtable(bytes, pool, vt) is Some,
    ensures
        0 <= find_vtable(bytes, pool, vt).unwrap() < pool.len(),
        vtable_at(bytes, pool[find_vtable(bytes, pool, vt).unwrap()] as int, vt),
    decreases pool.len(),
{
    if find_vtable(bytes, pool.drop_last(), vt) is Some {
        lemma_find_is_match(bytes, pool.drop_last(), vt);
    }
}

/// Pushing offsets keeps an alignment of at least 4.
proof fn lemma_push_offsets_min_align(m: BuilderModel, v: Seq<u32>)
    requires
        m.min_align >= 4,
    ensures
        m.push_offsets_rev(v).min_align == m.min_align,
    decreases v.len(),
{
    if v.len() > 0 {
        lemma_push_offsets_min_align(m.push_offset(v.last() as nat), v.drop_last());
    }
}

/// A vector of offsets reads back from a finished buffer. After
/// `create_vector_of_offsets(v)` and `finish` with the vector as root, the root
/// offset leads to the vector's length, which is that of `v`, and element `i`,
/// dereferenced, leads to the object at distance `v[i]` from the end.
pub proof fn lemma_finished_offset_vector_reads_back(m: BuilderModel, v: Seq<u32>)
    requires
        is_pow2(m.min_align),
        forall|i: int| 0 <= i < v.len() ==> #[trigger] v[i] <= m.size(),
        m.size() + 16 * v.len() + m.min_align + 32 <= u32::MAX,
    ensures
        ({
            let c = m.create_vector_of_offsets(v);
            let fin = c.finish(c.size()).bytes;
            let t = deref(fin, 0);
            &&& read_u32(fin, t) == v.len()
            &&& forall|i: int|
                0 <= i < v.len() ==> #[trigger] deref(fin, t + 4 + 4 * i) == fin.len() - v[i]
        }),
{
    let c = m.create_vector_of_offsets(v);
    let n = v.len();
    reveal_with_fuel(is_pow2, 4);
    let s = m.start_vector(n, 4);
    lemma_padding(m.size() + n * 4, 4);
    lemma_padding(m.pre_align(n * 4, 4).size() + n * 4, 4);
    lemma_start_vector_aligned(m, n, 4);
    lemma_push_offsets_aligned(s, v);
    lemma_offset_words_len(s.size(), v);
    let e = s.push_offsets_rev(v);
    assert(padding(e.size(), 4) == 0);
    (n as u32).lemma_round_trip();
    assert(c.size() == e.size() + 4);
    lemma_push_offsets_min_align(s, v);
    assert(c.min_align == max_nat(m.min_align, 4));
    assert(is_pow2(c.min_align));
    lemma_finish_root(c, c.size());
    let fin = c.finish(c.size()).bytes;
    let x = fin.subrange(0, fin.len() - c.size());
    assert(fin =~= x + c.bytes);
    lemma_offset_vector_round_trip(m, v, x);
}

/// A vector of structs reads back from a finished buffer. After
/// `create_vector_of_structs` of the struct bytes `v` and `finish` with the vector
/// as root, the root offset leads to `count` followed by the bytes of `v`.
pub proof fn lemma_finished_struct_vector_reads_back(
    m: BuilderModel,
    v: Seq<u8>,
    count: nat,
    align: nat,
)
    requires
        is_pow2(m.min_align),
        align == 1 || align == 2 || align == 4 || align == 8,
        v.len() % align == 0,
        count <= u32::MAX,
        m.size() + v.len() + m.min_align + 32 <= u32::MAX,
    ensures
        ({
            let c = m.start_vector(v.len() / align, align).push_bytes(v).push_scalar(
                count as u32,
            );
            let fin = c.finish(c.size()).bytes;
            let t = deref(fin, 0);
            &&& read_u32(fin, t) == count
            &&& fin.subrange(t + 4, t + 4 + v.len()) == v
        }),
{
    let n = v.len() / align;
    let c = m.start_vector(n, align).push_bytes(v).push_scalar(count as u32);
    reveal_with_fuel(is_pow2, 4);
    vstd::arithmetic::div_mod::lemma_fundamental_div_mod(v.len() as int, align as int);
    assert(n * align == v.len()) by (nonlinear_arith)
        requires
            v.len() == align * (v.len() / align) + v.len() % align,
            v.len() % align == 0,
            n == v.len() / align,
    ;
    lemma_padding(m.size() + v.len(), 4);
    lemma_padding(m.pre_align(v.len(), 4).size() + v.len(), align);
    lemma_start_vector_aligned(m, n, align);
    let e = m.start_vector(n, align).push_bytes(v);
    assert(padding(e.size(), 4) == 0);
    (count as u32).lemma_round_trip();
    assert(c.min_align == max_nat(max_nat(max_nat(m.min_align, 4), align), 4));
    assert(is_pow2(c.min_align));
    lemma_finish_root(c, c.size());
    let fin = c.finish(c.size()).bytes;
    let x = fin.subrange(0, fin.len() - c.size());
    assert(fin =~= x + c.bytes);
    lemma_struct_vector_round_trip(m, v, count, align, x);
}

} // verus!

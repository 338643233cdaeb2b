//! Little-endian encoding of the fixed-width scalars that a buffer stores.
use vstd::prelude::*;
use vstd::arithmetic::div_mod::lemma_mod_breakdown;
use vstd::arithmetic::power::{pow, lemma_pow_positive, lemma_pow_increases};

verus! {

/// The `n` low-order base-256 digits of `v`, least significant first.
pub open spec fn le_encode(v: nat, n: nat) -> Seq<u8>
    decreases n,
{
    if n == 0 {
        Seq::empty()
    } else {
        seq![(v % 256) as u8].add(le_encode(v / 256, (n - 1) as nat))
    }
}

/// The number whose base-256 digits, least significant first, are `s`.
pub open spec fn le_decode(s: Seq<u8>) -> nat
    decreases s.len(),
{
    if s.len() == 0 {
        0
    } else {
        s[0] as nat + 256 * le_decode(s.drop_first())
    }
}

pub proof fn lemma_le_encode_len(v: nat, n: nat)
    ensures
        le_encode(v, n).len() == n,
    decreases n,
{
    if n > 0 {
        lemma_le_encode_len(v / 256, (n - 1) as nat);
    }
}

/// Decoding `n` encoded digits gives the value back, modulo `256^n`.
pub proof fn lemma_le_round_trip(v: nat, n: nat)
    ensures
        le_decode(le_encode(v, n)) == (v as int) % pow(256, n),
    decreases n,
{
    reveal(pow);
    if n == 0 {
        assert(le_encode(v, n) =~= Seq::<u8>::empty());
    } else {
        let rest = le_encode(v / 256, (n - 1) as nat);
        lemma_le_round_trip(v / 256, (n - 1) as nat);
        assert(le_encode(v, n).drop_first() =~= rest);
        lemma_pow_positive(256, (n - 1) as nat);
        lemma_mod_breakdown(v as int, 256, pow(256, (n - 1) as nat));
    }
}

pub proof fn lemma_le_decode_bound(s: Seq<u8>)
    ensures
        le_decode(s) < pow(256, s.len()),
    decreases s.len(),
{
    reveal(pow);
    if s.len() > 0 {
        lemma_le_decode_bound(s.drop_first());
        let p = pow(256, (s.len() - 1) as nat);
        assert(le_decode(s) <= 255 + 256 * (p - 1)) by (nonlinear_arith)
            requires
                le_decode(s) == s[0] as nat + 256 * le_decode(s.drop_first()),
                le_decode(s.drop_first()) < p,
                s[0] as nat <= 255,
        ;
    }
}

/// Decoding the prefix `s.take(i + 1)` adds the digit `s[i]` at weight `256^i`.
proof fn lemma_le_decode_push(s: Seq<u8>, i: nat)
    requires
        i < s.len(),
    ensures
        le_decode(s.take(i as int + 1)) == le_decode(s.take(i as int)) + s[i as int] as nat * pow(
            256,
            i,
        ),
    decreases i,
{
    reveal(pow);
    if i > 0 {
        lemma_le_decode_push(s.drop_first(), (i - 1) as nat);
        assert(s.take(i as int + 1).drop_first() =~= s.drop_first().take(i as int));
        assert(s.take(i as int).drop_first() =~= s.drop_first().take(i - 1));
        let p = pow(256, (i - 1) as nat);
        assert(256 * (s[i as int] as nat * p) == s[i as int] as nat * (256 * p)) by (nonlinear_arith);
    } else {
        assert(s.take(1).drop_first() =~= Seq::<u8>::empty());
        assert(s.take(0) =~= Seq::<u8>::empty());
    }
}

/// Encodes the `n` low-order bytes of `v`, least significant first.
pub fn encode_le(v: u64, n: usize) -> (r: Vec<u8>)
    requires
        n <= 8,
    ensures
        r@ == le_encode(v as nat, n as nat),
{
    let mut r: Vec<u8> = Vec::new();
    let mut rest: u64 = v;
    let mut i: usize = 0;
    while i < n
        invariant
            i <= n,
            r@.add(le_encode(rest as nat, (n - i) as nat)) == le_encode(v as nat, n as nat),
        decreases n - i,
    {
        let ghost before = r@;
        assert(le_encode(rest as nat, (n - i) as nat) =~= seq![(rest % 256) as u8].add(
            le_encode((rest / 256) as nat, (n - i - 1) as nat),
        ));
        r.push((rest % 256) as u8);
        assert(r@.add(le_encode((rest / 256) as nat, (n - i - 1) as nat)) =~= before.add(
            le_encode(rest as nat, (n - i) as nat),
        ));
        rest = rest / 256;
        i = i + 1;
    }
    assert(r@.add(le_encode(rest as nat, 0)) =~= r@);
    r
}

/// Reads the `n` bytes at `pos` as a little-endian number.
pub fn decode_le(buf: &[u8], pos: usize, n: usize) -> (r: u64)
    requires
        n <= 8,
        pos + n <= buf@.len(),
    ensures
        r as nat == le_decode(buf@.subrange(pos as int, pos + n)),
{
    let ghost s = buf@.subrange(pos as int, pos + n);
    let mut r: u64 = 0;
    let mut weight: u64 = 1;
    let mut i: usize = 0;
    let len = buf.len();
    proof {
        reveal(pow);
        reveal_with_fuel(pow, 9);
        assert(s.take(0) =~= Seq::<u8>::empty());
    }
    while i < n
        invariant
            i <= n,
            n <= 8,
            pos + n <= buf@.len(),
            s == buf@.subrange(pos as int, pos + n),
            r as nat == le_decode(s.take(i as int)),
            i < n ==> weight as nat == pow(256, i as nat),
            pow(256, 8) == 0x1_0000_0000_0000_0000,
            pow(256, 7) == 0x100_0000_0000_0000,
            len == buf@.len(),
        decreases n - i,
    {
        proof {
            lemma_le_decode_push(s, i as nat);
            lemma_le_decode_bound(s.take(i as int + 1));
            assert(s.take(i as int + 1).len() == i + 1);
            lemma_pow_increases(256, (i + 1) as nat, 8);
            assert(s[i as int] == buf@[pos + i]);
        }
        let b: u8 = buf[pos + i];
        r = r + (b as u64) * weight;
        if i + 1 < n {
            proof {
                reveal(pow);
                lemma_pow_increases(256, (i + 1) as nat, 7);
                assert(pow(256, (i + 1) as nat) == 256 * pow(256, i as nat));
            }
            weight = weight * 256;
        }
        i = i + 1;
    }
    assert(s.take(n as int) =~= s);
    r
}

/// A fixed-width scalar that a buffer stores in little-endian byte order.
pub trait Endian: Copy + Sized {
    /// The number of bytes of the encoding, which is also the scalar's alignment.
    spec fn width() -> nat;

    /// The little-endian bytes of the value.
    spec fn le_bytes(self) -> Seq<u8>;

    /// The value whose little-endian bytes are `s`.
    spec fn from_le_bytes(s: Seq<u8>) -> Self;

    fn size() -> (r: usize)
        ensures
            r as nat == Self::width(),
            r == 1 || r == 2 || r == 4 || r == 8,
    ;

    fn to_le_vec(self) -> (r: Vec<u8>)
        ensures
            r@ == self.le_bytes(),
    ;

    fn read_le(buf: &[u8], pos: usize) -> (r: Self)
        requires
            pos + Self::width() <= buf@.len(),
        ensures
            r == Self::from_le_bytes(buf@.subrange(pos as int, pos + Self::width())),
    ;

    fn same(self, other: Self) -> (r: bool)
        ensures
            r == (self == other),
    ;

    /// The width is that of a fixed-size integer.
    proof fn lemma_width()
        ensures
            Self::width() == 1 || Self::width() == 2 || Self::width() == 4 || Self::width() == 8,
    ;

    /// The encoding has `width()` bytes and decodes to the value again.
    proof fn lemma_round_trip(self)
        ensures
            self.le_bytes().len() == Self::width(),
            Self::from_le_bytes(self.le_bytes()) == self,
            Self::width() == 1 || Self::width() == 2 || Self::width() == 4 || Self::width() == 8,
    ;
}

impl Endian for u8 {
    open spec fn width() -> nat {
        1
    }

    open spec fn le_bytes(self) -> Seq<u8> {
        le_encode(self as nat, 1)
    }

    open spec fn from_le_bytes(s: Seq<u8>) -> Self {
        le_decode(s) as u8
    }

    fn size() -> (r: usize) {
        1
    }

    fn to_le_vec(self) -> (r: Vec<u8>) {
        encode_le(self as u64, 1)
    }

    fn read_le(buf: &[u8], pos: usize) -> (r: Self) {
        let v = decode_le(buf, pos, 1);
        v as u8
    }

    fn same(self, other: Self) -> (r: bool) {
        self == other
    }

    proof fn lemma_width() {
    }

    proof fn lemma_round_trip(self) {
        lemma_le_encode_len(self as nat, 1);
        lemma_le_round_trip(self as nat, 1);
        reveal_with_fuel(pow, 9);
        assert(pow(256, 1) == 0x100);
    }
}

impl Endian for i8 {
    open spec fn width() -> nat {
        1
    }

    open spec fn le_bytes(self) -> Seq<u8> {
        le_encode((#[verifier::truncate] (self as u8)) as nat, 1)
    }

    open spec fn from_le_bytes(s: Seq<u8>) -> Self {
        (le_decode(s) as u8) as i8
    }

    fn size() -> (r: usize) {
        1
    }

    fn to_le_vec(self) -> (r: Vec<u8>) {
        encode_le((#[verifier::truncate] (self as u8)) as u64, 1)
    }

    fn read_le(buf: &[u8], pos: usize) -> (r: Self) {
        let v = decode_le(buf, pos, 1);
        (v as u8) as i8
    }

    fn same(self, other: Self) -> (r: bool) {
        self == other
    }

    proof fn lemma_width() {
    }

    proof fn lemma_round_trip(self) {
        lemma_le_encode_len((#[verifier::truncate] (self as u8)) as nat, 1);
        lemma_le_round_trip((#[verifier::truncate] (self as u8)) as nat, 1);
        reveal_with_fuel(pow, 9);
        assert(pow(256, 1) == 0x100);
        let x = self;
        assert(((#[verifier::truncate] (x as u8)) as i8) == x) by (bit_vector);
    }
}

impl Endian for u16 {
    open spec fn width() -> nat {
        2
    }

    open spec fn le_bytes(self) -> Seq<u8> {
        le_encode(self as nat, 2)
    }

    open spec fn from_le_bytes(s: Seq<u8>) -> Self {
        le_decode(s) as u16
    }

    fn size() -> (r: usize) {
        2
    }

    fn to_le_vec(self) -> (r: Vec<u8>) {
        encode_le(self as u64, 2)
    }

    fn read_le(buf: &[u8], pos: usize) -> (r: Self) {
        let v = decode_le(buf, pos, 2);
        v as u16
    }

    fn same(self, other: Self) -> (r: bool) {
        self == other
    }

    proof fn lemma_width() {
    }

    proof fn lemma_round_trip(self) {
        lemma_le_encode_len(self as nat, 2);
        lemma_le_round_trip(self as nat, 2);
        reveal_with_fuel(pow, 9);
        assert(pow(256, 2) == 0x1_0000);
    }
}

impl Endian for i16 {
    open spec fn width() -> nat {
        2
    }

    open spec fn le_bytes(self) -> Seq<u8> {
        le_encode((#[verifier::truncate] (self as u16)) as nat, 2)
    }

    open spec fn from_le_bytes(s: Seq<u8>) -> Self {
        (le_decode(s) as u16) as i16
    }

    fn size() -> (r: usize) {
        2
    }

    fn to_le_vec(self) -> (r: Vec<u8>) {
        encode_le((#[verifier::truncate] (self as u16)) as u64, 2)
    }

    fn read_le(buf: &[u8], pos: usize) -> (r: Self) {
        let v = decode_le(buf, pos, 2);
        (v as u16) as i16
    }

    fn same(self, other: Self) -> (r: bool) {
        self == other
    }

    proof fn lemma_width() {
    }

    proof fn lemma_round_trip(self) {
        lemma_le_encode_len((#[verifier::truncate] (self as u16)) as nat, 2);
        lemma_le_round_trip((#[verifier::truncate] (self as u16)) as nat, 2);
        reveal_with_fuel(pow, 9);
        assert(pow(256, 2) == 0x1_0000);
        let x = self;
        assert(((#[verifier::truncate] (x as u16)) as i16) == x) by (bit_vector);
    }
}

impl Endian for u32 {
    open spec fn width() -> nat {
        4
    }

    open spec fn le_bytes(self) -> Seq<u8> {
        le_encode(self as nat, 4)
    }

    open spec fn from_le_bytes(s: Seq<u8>) -> Self {
        le_decode(s) as u32
    }

    fn size() -> (r: usize) {
        4
    }

    fn to_le_vec(self) -> (r: Vec<u8>) {
        encode_le(self as u64, 4)
    }

    fn read_le(buf: &[u8], pos: usize) -> (r: Self) {
        let v = decode_le(buf, pos, 4);
        v as u32
    }

    fn same(self, other: Self) -> (r: bool) {
        self == other
    }

    proof fn lemma_width() {
    }

    proof fn lemma_round_trip(self) {
        lemma_le_encode_len(self as nat, 4);
        lemma_le_round_trip(self as nat, 4);
        reveal_with_fuel(pow, 9);
        assert(pow(256, 4) == 0x1_0000_0000);
    }
}

impl Endian for i32 {
    open spec fn width() -> nat {
        4
    }

    open spec fn le_bytes(self) -> Seq<u8> {
        le_encode((#[verifier::truncate] (self as u32)) as nat, 4)
    }

    open spec fn from_le_bytes(s: Seq<u8>) -> Self {
        (le_decode(s) as u32) as i32
    }

    fn size() -> (r: usize) {
        4
    }

    fn to_le_vec(self) -> (r: Vec<u8>) {
        encode_le((#[verifier::truncate] (self as u32)) as u64, 4)
    }

    fn read_le(buf: &[u8], pos: usize) -> (r: Self) {
        let v = decode_le(buf, pos, 4);
        (v as u32) as i32
    }

    fn same(self, other: Self) -> (r: bool) {
        self == other
    }

    proof fn lemma_width() {
    }

    proof fn lemma_round_trip(self) {
        lemma_le_encode_len((#[verifier::truncate] (self as u32)) as nat, 4);
        lemma_le_round_trip((#[verifier::truncate] (self as u32)) as nat, 4);
        reveal_with_fuel(pow, 9);
        assert(pow(256, 4) == 0x1_0000_0000);
        let x = self;
        assert(((#[verifier::truncate] (x as u32)) as i32) == x) by (bit_vector);
    }
}

impl Endian for u64 {
    open spec fn width() -> nat {
        8
    }

    open spec fn le_bytes(self) -> Seq<u8> {
        le_encode(self as nat, 8)
    }

    open spec fn from_le_bytes(s: Seq<u8>) -> Self {
        le_decode(s) as u64
    }

    fn size() -> (r: usize) {
        8
    }

    fn to_le_vec(self) -> (r: Vec<u8>) {
        encode_le(self as u64, 8)
    }

    fn read_le(buf: &[u8], pos: usize) -> (r: Self) {
        let v = decode_le(buf, pos, 8);
        v as u64
    }

    fn same(self, other: Self) -> (r: bool) {
        self == other
    }

    proof fn lemma_width() {
    }

    proof fn lemma_round_trip(self) {
        lemma_le_encode_len(self as nat, 8);
        lemma_le_round_trip(self as nat, 8);
        reveal_with_fuel(pow, 9);
        assert(pow(256, 8) == 0x1_0000_0000_0000_0000);
    }
}

impl Endian for i64 {
    open spec fn width() -> nat {
        8
    }

    open spec fn le_bytes(self) -> Seq<u8> {
        le_encode((#[verifier::truncate] (self as u64)) as nat, 8)
    }

    open spec fn from_le_bytes(s: Seq<u8>) -> Self {
        (le_decode(s) as u64) as i64
    }

    fn size() -> (r: usize) {
        8
    }

    fn to_le_vec(self) -> (r: Vec<u8>) {
        encode_le((#[verifier::truncate] (self as u64)) as u64, 8)
    }

    fn read_le(buf: &[u8], pos: usize) -> (r: Self) {
        let v = decode_le(buf, pos, 8);
        (v as u64) as i64
    }

    fn same(self, other: Self) -> (r: bool) {
        self == other
    }

    proof fn lemma_width() {
    }

    proof fn lemma_round_trip(self) {
        lemma_le_encode_len((#[verifier::truncate] (self as u64)) as nat, 8);
        lemma_le_round_trip((#[verifier::truncate] (self as u64)) as nat, 8);
        reveal_with_fuel(pow, 9);
        assert(pow(256, 8) == 0x1_0000_0000_0000_0000);
        let x = self;
        assert(((#[verifier::truncate] (x as u64)) as i64) == x) by (bit_vector);
    }
}

} // verus!

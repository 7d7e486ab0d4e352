//! The word codec: integers of 16, 32 and 64 bits, signed and unsigned, as
//! big-endian sequences of 16-bit words.

use vstd::prelude::*;
use crate::pack::PackType;

verus! {

/// The number that `words` denote as big-endian digits to the base 65536.
pub open spec fn words_value(words: Seq<u16>) -> nat
    decreases words.len(),
{
    if words.len() == 0 {
        0
    } else {
        words_value(words.drop_last()) * 0x1_0000 + words.last() as nat
    }
}

/// The `width` least significant digits of `u` to the base 65536, the most
/// significant of them first.
pub open spec fn unsigned_words(u: int, width: nat) -> Seq<u16>
    decreases width,
{
    if width == 0 {
        Seq::empty()
    } else {
        unsigned_words(u / 0x1_0000, (width - 1) as nat).push((u % 0x1_0000) as u16)
    }
}

/// The number of bit patterns that a value of type `t` can take.
pub open spec fn modulus(t: PackType) -> int {
    match t {
        PackType::U16 | PackType::I16 => 0x1_0000,
        PackType::U32 | PackType::I32 => 0x1_0000_0000,
        PackType::U64 | PackType::I64 => 0x1_0000_0000_0000_0000,
    }
}

/// The least value of type `t`.
pub open spec fn min_value(t: PackType) -> int {
    if t.signed() {
        -(modulus(t) / 2)
    } else {
        0
    }
}

/// The greatest value of type `t`.
pub open spec fn max_value(t: PackType) -> int {
    if t.signed() {
        modulus(t) / 2 - 1
    } else {
        modulus(t) - 1
    }
}

/// Whether `n` is a value of type `t`.
pub open spec fn representable(n: int, t: PackType) -> bool {
    min_value(t) <= n <= max_value(t)
}

/// The words of `n` as a value of type `t`: two's complement for a negative
/// number, the most significant word first.
pub open spec fn pack(n: int, t: PackType) -> Seq<u16> {
    unsigned_words(
        if n < 0 {
            n + modulus(t)
        } else {
            n
        },
        t.width(),
    )
}

/// The value of type `t` that `words` hold.
pub open spec fn unpack(words: Seq<u16>, t: PackType) -> int {
    let u = words_value(words) as int;
    if t.signed() && u >= modulus(t) / 2 {
        u - modulus(t)
    } else {
        u
    }
}

/// The words of a representable number are as many as the type is wide.
pub proof fn lemma_pack_len(n: int, t: PackType)
    ensures
        pack(n, t).len() == t.width(),
{
    reveal_with_fuel(unsigned_words, 5);
}

/// Unpacking the words of a representable number gives the number back.
pub proof fn lemma_unpack_pack(n: int, t: PackType)
    requires
        representable(n, t),
    ensures
        unpack(pack(n, t), t) == n,
{
    reveal_with_fuel(unsigned_words, 5);
    reveal_with_fuel(words_value, 5);
    let u = if n < 0 {
        n + modulus(t)
    } else {
        n
    };
    let ws = pack(n, t);
    if t.width() == 1 {
        assert(ws.drop_last() == Seq::<u16>::empty());
    } else if t.width() == 2 {
        assert(ws.drop_last().drop_last() == Seq::<u16>::empty());
    } else {
        let a = ws.drop_last();
        let b = a.drop_last();
        let c = b.drop_last();
        assert(c.drop_last() == Seq::<u16>::empty());
    }
    assert(words_value(ws) == u);
}

/// Words as many as the type is wide hold a representable number, and its
/// words are those words.
pub proof fn lemma_pack_unpack(words: Seq<u16>, t: PackType)
    requires
        words.len() == t.width(),
    ensures
        representable(unpack(words, t), t),
        pack(unpack(words, t), t) == words,
{
    reveal_with_fuel(unsigned_words, 5);
    reveal_with_fuel(words_value, 5);
    let u = words_value(words) as int;
    assert(0 <= u < modulus(t));
    assert(unsigned_words(u, t.width()) =~= words);
}

/// The words of `n` as a value of type `t`, where `n` is one.
pub fn to_words(n: i128, t: PackType) -> (out: Option<Vec<u16>>)
    ensures
        representable(n as int, t) ==> out is Some && out->0@ == pack(n as int, t),
        !representable(n as int, t) ==> out is None,
{
    let (low, high, span): (i128, i128, i128) = match t {
        PackType::U16 => (0, 0xFFFF, 0x1_0000),
        PackType::I16 => (-0x8000, 0x7FFF, 0x1_0000),
        PackType::U32 => (0, 0xFFFF_FFFF, 0x1_0000_0000),
        PackType::I32 => (-0x8000_0000, 0x7FFF_FFFF, 0x1_0000_0000),
        PackType::U64 => (0, 0xFFFF_FFFF_FFFF_FFFF, 0x1_0000_0000_0000_0000),
        PackType::I64 => (-0x8000_0000_0000_0000, 0x7FFF_FFFF_FFFF_FFFF, 0x1_0000_0000_0000_0000),
    };
    if n < low || n > high {
        return None;
    }
    let bits: u64 = if n < 0 {
        (n + span) as u64
    } else {
        n as u64
    };
    proof {
        reveal_with_fuel(unsigned_words, 5);
    }
    let mut words: Vec<u16> = Vec::new();
    let w3: u16 = (bits % 0x1_0000) as u16;
    let rest: u64 = bits / 0x1_0000;
    match t.len() {
        1 => {
            words.push(w3);
        },
        2 => {
            words.push((rest % 0x1_0000) as u16);
            words.push(w3);
        },
        _ => {
            let w2: u16 = (rest % 0x1_0000) as u16;
            let rest: u64 = rest / 0x1_0000;
            let w1: u16 = (rest % 0x1_0000) as u16;
            let rest: u64 = rest / 0x1_0000;
            words.push((rest % 0x1_0000) as u16);
            words.push(w1);
            words.push(w2);
            words.push(w3);
        },
    }
    assert(words@ =~= pack(n as int, t));
    Some(words)
}

/// The value of type `t` that `words` hold.
pub fn from_words(words: &Vec<u16>, t: PackType) -> (out: i128)
    requires
        words.len() == t.width(),
    ensures
        out == unpack(words@, t),
{
    let mut bits: u64 = 0;
    let mut i: usize = 0;
    while i < words.len()
        invariant
            i <= words.len() <= 4,
            bits as nat == words_value(words@.take(i as int)),
            i == 0 ==> bits == 0,
            i == 1 ==> bits < 0x1_0000,
            i == 2 ==> bits < 0x1_0000_0000,
            i == 3 ==> bits < 0x1_0000_0000_0000,
        decreases words.len() - i,
    {
        assert(words@.take(i + 1).drop_last() == words@.take(i as int));
        bits = bits * 0x1_0000 + words[i] as u64;
        i = i + 1;
    }
    assert(words@.take(words.len() as int) == words@);
    let (signed, span): (bool, i128) = match t {
        PackType::U16 => (false, 0x1_0000),
        PackType::I16 => (true, 0x1_0000),
        PackType::U32 => (false, 0x1_0000_0000),
        PackType::I32 => (true, 0x1_0000_0000),
        PackType::U64 => (false, 0x1_0000_0000_0000_0000),
        PackType::I64 => (true, 0x1_0000_0000_0000_0000),
    };
    if signed && bits as i128 >= span / 2 {
        bits as i128 - span
    } else {
        bits as i128
    }
}

/// The four words of a 64-bit value, the most significant first.
pub trait AsWords<T> {
    /// The words that `as_words` returns.
    spec fn words(&self) -> Seq<u16>;

    /// The words of the value.
    fn as_words(&self) -> (out: Vec<u16>)
        ensures
            out@ == self.words(),
    ;
}

/// The 64-bit value that four words hold, the most significant first.
pub trait FromVec<T> {
    /// Whether the words are as many as the value is wide.
    spec fn complete(&self) -> bool;

    /// The value that `from_vec` returns.
    spec fn value(&self) -> T;

    /// The value of the words.
    fn from_vec(&self) -> (out: T)
        requires
            self.complete(),
        ensures
            out == self.value(),
    ;
}

/// The words of an unsigned 64-bit value are its four 16-bit fields.
pub proof fn lemma_u64_layout(v: u64)
    ensures
        pack(v as int, PackType::U64) == seq![
            ((v >> 48) & 0xFFFF) as u16,
            ((v >> 32) & 0xFFFF) as u16,
            ((v >> 16) & 0xFFFF) as u16,
            (v & 0xFFFF) as u16,
        ],
{
    reveal_with_fuel(unsigned_words, 5);
    assert((v >> 48) & 0xFFFF == v / 0x1_0000 / 0x1_0000 / 0x1_0000 % 0x1_0000) by (bit_vector);
    assert((v >> 32) & 0xFFFF == v / 0x1_0000 / 0x1_0000 % 0x1_0000) by (bit_vector);
    assert((v >> 16) & 0xFFFF == v / 0x1_0000 % 0x1_0000) by (bit_vector);
    assert(v & 0xFFFF == v % 0x1_0000) by (bit_vector);
    assert(pack(v as int, PackType::U64) =~= seq![
        ((v >> 48) & 0xFFFF) as u16,
        ((v >> 32) & 0xFFFF) as u16,
        ((v >> 16) & 0xFFFF) as u16,
        (v & 0xFFFF) as u16,
    ]);
}

impl AsWords<u64> for u64 {
    open spec fn words(&self) -> Seq<u16> {
        pack(*self as int, PackType::U64)
    }

    fn as_words(&self) -> (out: Vec<u16>) {
        let v: u64 = *self;
        proof {
            lemma_u64_layout(v);
        }
        let mut out: Vec<u16> = Vec::new();
        out.push(((v >> 48) & 0xFFFF) as u16);
        out.push(((v >> 32) & 0xFFFF) as u16);
        out.push(((v >> 16) & 0xFFFF) as u16);
        out.push((v & 0xFFFF) as u16);
        assert(out@ =~= self.words());
        out
    }
}

/// The words of a signed 64-bit value are the four 16-bit fields of its
/// two's complement.
pub proof fn lemma_i64_layout(v: i64)
    ensures
        pack(v as int, PackType::I64) == seq![
            ((v >> 48) & 0xFFFF) as u16,
            ((v >> 32) & 0xFFFF) as u16,
            ((v >> 16) & 0xFFFF) as u16,
            (v & 0xFFFF) as u16,
        ],
{
    let u: u64 = v as u64;
    assert(u == if v < 0 {
        v + 0x1_0000_0000_0000_0000
    } else {
        v as int
    }) by (bit_vector)
        requires
            u == v as u64,
    ;
    assert(((v >> 48) & 0xFFFF) as u16 == ((u >> 48) & 0xFFFF) as u16) by (bit_vector)
        requires
            u == v as u64,
    ;
    assert(((v >> 32) & 0xFFFF) as u16 == ((u >> 32) & 0xFFFF) as u16) by (bit_vector)
        requires
            u == v as u64,
    ;
    assert(((v >> 16) & 0xFFFF) as u16 == ((u >> 16) & 0xFFFF) as u16) by (bit_vector)
        requires
            u == v as u64,
    ;
    assert((v & 0xFFFF) as u16 == (u & 0xFFFF) as u16) by (bit_vector)
        requires
            u == v as u64,
    ;
    lemma_u64_layout(u);
}

impl AsWords<i64> for i64 {
    open spec fn words(&self) -> Seq<u16> {
        pack(*self as int, PackType::I64)
    }

    fn as_words(&self) -> (out: Vec<u16>) {
        let v: i64 = *self;
        proof {
            lemma_i64_layout(v);
        }
        let mut out: Vec<u16> = Vec::new();
        out.push(((v >> 48) & 0xFFFF) as u16);
        out.push(((v >> 32) & 0xFFFF) as u16);
        out.push(((v >> 16) & 0xFFFF) as u16);
        out.push((v & 0xFFFF) as u16);
        assert(out@ =~= self.words());
        out
    }
}

/// The bit fields of four words, joined, are their value to the base 65536.
proof fn lemma_join_words(a: u16, b: u16, c: u16, d: u16)
    ensures
        ((a as u64) << 48) | ((b as u64) << 32) | ((c as u64) << 16) | (d as u64) == words_value(
            seq![a, b, c, d],
        ),
{
    reveal_with_fuel(words_value, 5);
    let ws = seq![a, b, c, d];
    assert(ws.drop_last() =~= seq![a, b, c]);
    assert(ws.drop_last().drop_last() =~= seq![a, b]);
    assert(ws.drop_last().drop_last().drop_last() =~= seq![a]);
    assert(ws.drop_last().drop_last().drop_last().drop_last() =~= Seq::<u16>::empty());
    assert(((a as u64) << 48) | ((b as u64) << 32) | ((c as u64) << 16) | (d as u64) == ((a
        * 0x1_0000 + b) * 0x1_0000 + c) * 0x1_0000 + d) by (bit_vector);
}

impl FromVec<u64> for Vec<u16> {
    open spec fn complete(&self) -> bool {
        self@.len() == 4
    }

    open spec fn value(&self) -> u64 {
        unpack(self@, PackType::U64) as u64
    }

    fn from_vec(&self) -> (out: u64) {
        let a: u16 = self[0];
        let b: u16 = self[1];
        let c: u16 = self[2];
        let d: u16 = self[3];
        proof {
            lemma_join_words(a, b, c, d);
            assert(self@ =~= seq![a, b, c, d]);
            lemma_pack_unpack(self@, PackType::U64);
        }
        ((a as u64) << 48) | ((b as u64) << 32) | ((c as u64) << 16) | (d as u64)
    }
}

impl FromVec<i64> for Vec<u16> {
    open spec fn complete(&self) -> bool {
        self@.len() == 4
    }

    open spec fn value(&self) -> i64 {
        unpack(self@, PackType::I64) as i64
    }

    fn from_vec(&self) -> (out: i64) {
        let a: u16 = self[0];
        let b: u16 = self[1];
        let c: u16 = self[2];
        let d: u16 = self[3];
        let bits: u64 = ((a as u64) << 48) | ((b as u64) << 32) | ((c as u64) << 16) | (d as u64);
        proof {
            lemma_join_words(a, b, c, d);
            assert(self@ =~= seq![a, b, c, d]);
            lemma_pack_unpack(self@, PackType::I64);
            assert(bits as i64 == if bits >= 0x8000_0000_0000_0000 {
                bits - 0x1_0000_0000_0000_0000
            } else {
                bits as int
            }) by (bit_vector);
        }
        bits as i64
    }
}

} // verus!

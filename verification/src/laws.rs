//! Laws of the register document: what reading and writing it preserve.

use vstd::prelude::*;
use crate::json::{
    entry_words, is_bit_address, is_word_address, key_covers, key_entry, key_fits, keys_of,
    lemma_parsed_prefix, lemma_serialized_writable, parsed_registers, schema, serialized,
    span_fits, Entry, Fault, JsonValue, Stored,
};
use crate::pack::{key_format, PackFormat, PackType};
use crate::table::{lemma_store_words, read_words, span_free, span_present, store_words};
use crate::words::{
    lemma_i64_layout, lemma_pack_len, lemma_pack_unpack, lemma_u64_layout, lemma_unpack_pack, pack, representable,
    unpack, unsigned_words, words_value,
};

verus! {

/// Whether `entry` is valid and writes the address `x`.
pub open spec fn covers(entry: Entry, x: u16) -> bool {
    entry_words(entry) matches Some(stored) && stored.address <= x < stored.address
        + stored.words.len()
}

/// A valid entry writes as many words as its key is wide, from the address
/// of its key on, and the span of its key lies in one register class.
pub proof fn lemma_stored_shape(entry: Entry)
    requires
        entry_words(entry) is Some,
    ensures
        key_format(entry.key) is Some,
        span_fits(key_format(entry.key)->0),
        entry_words(entry)->0.address == key_format(entry.key)->0.address,
        entry_words(entry)->0.words.len() == key_format(entry.key)->0.pack_type.width(),
        is_bit_address(entry_words(entry)->0.address) || is_word_address(
            entry_words(entry)->0.address,
        ),
        is_bit_address(entry_words(entry)->0.address) ==> entry_words(entry)->0.words[0] <= 1,
        1 <= entry_words(entry)->0.words.len() <= 4,
        entry_words(entry)->0.address + entry_words(entry)->0.words.len() <= 50000,
{
    let format = key_format(entry.key)->0;
    if is_word_address(format.address) {
        match entry.value {
            JsonValue::Integer(n) => {
                lemma_pack_len(n as int, format.pack_type);
            },
            _ => {},
        }
    }
}

/// Where all entries describe registers, so does every prefix of them, and
/// every entry is valid.
pub proof fn lemma_parsed_steps(entries: Seq<Entry>, n: int)
    requires
        parsed_registers(entries) is Some,
        0 <= n <= entries.len(),
    ensures
        parsed_registers(entries.take(n)) is Some,
        n < entries.len() ==> entry_words(entries[n]) is Some,
{
    if parsed_registers(entries.take(n)) is None {
        lemma_parsed_prefix(entries, n);
    }
    if n < entries.len() {
        let upto = entries.take(n + 1);
        if parsed_registers(upto) is None {
            lemma_parsed_prefix(entries, n + 1);
        }
        assert(upto.last() == entries[n]);
    }
}

/// The registers of a document hold exactly the addresses that its entries
/// write.
pub proof fn lemma_parsed_domain(entries: Seq<Entry>)
    requires
        parsed_registers(entries) is Some,
    ensures
        forall|x: u16|
            #![trigger parsed_registers(entries)->0.contains_key(x)]
            parsed_registers(entries)->0.contains_key(x) <==> exists|k: int|
                0 <= k < entries.len() && #[trigger] covers(entries[k], x),
    decreases entries.len(),
{
    if entries.len() > 0 {
        let earlier = entries.drop_last();
        let last = entries.last();
        let before = parsed_registers(earlier)->0;
        let stored = entry_words(last)->0;
        let after = parsed_registers(entries)->0;
        lemma_parsed_domain(earlier);
        lemma_stored_shape(last);
        lemma_store_words(before, stored.address, stored.words);
        assert(after == store_words(before, stored.address, stored.words));
        assert forall|x: u16| #![trigger after.contains_key(x)] after.contains_key(x)
            <==> exists|k: int| 0 <= k < entries.len() && #[trigger] covers(entries[k], x) by {
            if after.contains_key(x) {
                if before.contains_key(x) {
                    let k = choose|k: int| 0 <= k < earlier.len() && #[trigger] covers(earlier[k], x);
                    assert(covers(entries[k], x));
                } else {
                    assert(covers(entries[entries.len() - 1], x));
                }
            }
            if exists|k: int| 0 <= k < entries.len() && #[trigger] covers(entries[k], x) {
                let k = choose|k: int| 0 <= k < entries.len() && #[trigger] covers(entries[k], x);
                if k < earlier.len() {
                    assert(covers(earlier[k], x));
                    assert(before.contains_key(x));
                }
            }
        }
    }
}

/// An entry's word stands at each address that it writes and that no later
/// entry writes.
pub proof fn lemma_parsed_value(entries: Seq<Entry>, k: int, x: u16)
    requires
        parsed_registers(entries) is Some,
        0 <= k < entries.len(),
        covers(entries[k], x),
        forall|j: int| k < j < entries.len() ==> !#[trigger] covers(entries[j], x),
    ensures
        parsed_registers(entries)->0.contains_key(x),
        parsed_registers(entries)->0[x] == entry_words(entries[k])->0.words[x - entry_words(
            entries[k],
        )->0.address],
    decreases entries.len(),
{
    let earlier = entries.drop_last();
    let last = entries.last();
    let before = parsed_registers(earlier)->0;
    let stored = entry_words(last)->0;
    lemma_stored_shape(last);
    lemma_store_words(before, stored.address, stored.words);
    if k < entries.len() - 1 {
        assert(!covers(entries[entries.len() - 1], x));
        assert forall|j: int| k < j < earlier.len() implies !#[trigger] covers(earlier[j], x) by {
            assert(!covers(entries[j], x));
        }
        lemma_parsed_value(earlier, k, x);
    }
}

/// Whether the spans of two keys share an address.
pub open spec fn spans_overlap(a: PackFormat, b: PackFormat) -> bool {
    a.address < b.address + b.pack_type.width() && b.address < a.address + a.pack_type.width()
}

/// Span collision: a document with two keys whose spans share an address
/// describes no registers.
pub proof fn lemma_span_collision(entries: Seq<Entry>, i: int, j: int)
    requires
        0 <= i < j < entries.len(),
        key_format(entries[i].key) is Some,
        key_format(entries[j].key) is Some,
        spans_overlap(key_format(entries[i].key)->0, key_format(entries[j].key)->0),
    ensures
        parsed_registers(entries) is None,
{
    if parsed_registers(entries) is Some {
        let first = key_format(entries[i].key)->0;
        let second = key_format(entries[j].key)->0;
        lemma_parsed_steps(entries, i);
        lemma_parsed_steps(entries, j);
        lemma_parsed_steps(entries, j + 1);
        lemma_stored_shape(entries[i]);
        lemma_stored_shape(entries[j]);
        let shared: u16 = if first.address >= second.address {
            first.address
        } else {
            second.address
        };
        let sooner = entries.take(j);
        let upto = entries.take(j + 1);
        assert(upto.drop_last() == sooner);
        assert(upto.last() == entries[j]);
        assert(sooner[i] == entries[i]);
        assert(covers(sooner[i], shared));
        lemma_parsed_domain(sooner);
        let before = parsed_registers(sooner)->0;
        assert(before.contains_key(shared));
        assert(span_free(before, second.address, second.pack_type.width()));
        assert(!before.contains_key((second.address + (shared - second.address)) as u16));
    }
}

/// In a document that describes registers, every key follows the grammar,
/// its span lies in one register class, and no two keys share an address; so
/// no key occurs twice.
pub proof fn lemma_spans_apart(entries: Seq<Entry>, i: int, j: int)
    requires
        parsed_registers(entries) is Some,
        0 <= i < entries.len(),
        0 <= j < entries.len(),
        i != j,
    ensures
        key_format(entries[i].key) is Some,
        key_format(entries[j].key) is Some,
        span_fits(key_format(entries[i].key)->0),
        !spans_overlap(key_format(entries[i].key)->0, key_format(entries[j].key)->0),
        entries[i].key != entries[j].key,
{
    lemma_parsed_steps(entries, i);
    lemma_parsed_steps(entries, j);
    lemma_stored_shape(entries[i]);
    lemma_stored_shape(entries[j]);
    if spans_overlap(key_format(entries[i].key)->0, key_format(entries[j].key)->0) {
        if i < j {
            lemma_span_collision(entries, i, j);
        } else {
            lemma_span_collision(entries, j, i);
        }
    }
}

/// The words of an entry stand in the registers of its document, whatever
/// follows it.
pub proof fn lemma_entry_stays(entries: Seq<Entry>, k: int)
    requires
        parsed_registers(entries) is Some,
        0 <= k < entries.len(),
    ensures
        entry_words(entries[k]) is Some,
        span_present(
            parsed_registers(entries)->0,
            entry_words(entries[k])->0.address,
            entry_words(entries[k])->0.words.len(),
        ),
        read_words(
            parsed_registers(entries)->0,
            entry_words(entries[k])->0.address,
            entry_words(entries[k])->0.words.len(),
        ) == entry_words(entries[k])->0.words,
{
    lemma_parsed_steps(entries, k);
    lemma_stored_shape(entries[k]);
    let stored = entry_words(entries[k])->0;
    let registers = parsed_registers(entries)->0;
    assert forall|i: int| 0 <= i < stored.words.len() implies registers.contains_key(
        #[trigger] ((stored.address + i) as u16),
    ) && registers[(stored.address + i) as u16] == stored.words[i] by {
        let x = (stored.address + i) as u16;
        assert forall|j: int| k < j < entries.len() implies !#[trigger] covers(entries[j], x) by {
            if covers(entries[j], x) {
                lemma_stored_shape(entries[j]);
                lemma_span_collision(entries, k, j);
            }
        }
        lemma_parsed_value(entries, k, x);
    }
    assert(read_words(registers, stored.address, stored.words.len()) =~= stored.words);
}

/// The registers of a document hold 0 or 1 at every bit address.
pub proof fn lemma_parsed_bits(entries: Seq<Entry>, x: u16)
    requires
        parsed_registers(entries) is Some,
        parsed_registers(entries)->0.contains_key(x),
    ensures
        is_bit_address(x) || is_word_address(x),
        is_bit_address(x) ==> parsed_registers(entries)->0[x] <= 1,
{
    lemma_parsed_domain(entries);
    let k = choose|k: int| 0 <= k < entries.len() && #[trigger] covers(entries[k], x);
    lemma_stored_shape(entries[k]);
    lemma_entry_stays(entries, k);
    let stored = entry_words(entries[k])->0;
    let words = read_words(parsed_registers(entries)->0, stored.address, stored.words.len());
    assert(words[x - stored.address] == parsed_registers(entries)->0[x]);
}

/// Big-endian layout: where a document that describes registers holds the
/// unsigned 64-bit value `v` under a key at the address `a`, the
/// registers at `a` to `a + 3` hold its four 16-bit fields, the most
/// significant first.
pub proof fn lemma_layout_u64(entries: Seq<Entry>, k: int, v: u64)
    requires
        parsed_registers(entries) is Some,
        0 <= k < entries.len(),
        key_format(entries[k].key) is Some,
        key_format(entries[k].key)->0.pack_type == PackType::U64,
        entries[k].value == JsonValue::Integer(v as i128),
    ensures
        ({
            let a = key_format(entries[k].key)->0.address;
            let registers = parsed_registers(entries)->0;
            &&& registers[a] == ((v >> 48) & 0xFFFF) as u16
            &&& registers[(a + 1) as u16] == ((v >> 32) & 0xFFFF) as u16
            &&& registers[(a + 2) as u16] == ((v >> 16) & 0xFFFF) as u16
            &&& registers[(a + 3) as u16] == (v & 0xFFFF) as u16
        }),
{
    let a = key_format(entries[k].key)->0.address;
    let registers = parsed_registers(entries)->0;
    lemma_entry_stays(entries, k);
    lemma_stored_shape(entries[k]);
    lemma_u64_layout(v);
    let words = read_words(registers, a, 4);
    assert(words[0] == registers[(a + 0) as u16]);
    assert(words[1] == registers[(a + 1) as u16]);
    assert(words[2] == registers[(a + 2) as u16]);
    assert(words[3] == registers[(a + 3) as u16]);
}

/// Big-endian layout of a signed 64-bit value: the registers hold the four
/// 16-bit fields of its two's complement, the most significant first.
pub proof fn lemma_layout_i64(entries: Seq<Entry>, k: int, v: i64)
    requires
        parsed_registers(entries) is Some,
        0 <= k < entries.len(),
        key_format(entries[k].key) is Some,
        key_format(entries[k].key)->0.pack_type == PackType::I64,
        entries[k].value == JsonValue::Integer(v as i128),
    ensures
        ({
            let a = key_format(entries[k].key)->0.address;
            let registers = parsed_registers(entries)->0;
            &&& registers[a] == ((v >> 48) & 0xFFFF) as u16
            &&& registers[(a + 1) as u16] == ((v >> 32) & 0xFFFF) as u16
            &&& registers[(a + 2) as u16] == ((v >> 16) & 0xFFFF) as u16
            &&& registers[(a + 3) as u16] == (v & 0xFFFF) as u16
        }),
{
    let a = key_format(entries[k].key)->0.address;
    let registers = parsed_registers(entries)->0;
    lemma_entry_stays(entries, k);
    lemma_stored_shape(entries[k]);
    lemma_i64_layout(v);
    let words = read_words(registers, a, 4);
    assert(words[0] == registers[(a + 0) as u16]);
    assert(words[1] == registers[(a + 1) as u16]);
    assert(words[2] == registers[(a + 2) as u16]);
    assert(words[3] == registers[(a + 3) as u16]);
}

/// Whether every value of `entries` is an integer.
pub open spec fn all_integers(entries: Seq<Entry>) -> bool {
    forall|k: int| 0 <= k < entries.len() ==> (#[trigger] entries[k]).value is Integer
}

/// Whether `registers` hold, at every address that an entry writes, the word
/// that the registers of the document hold there.
pub open spec fn keeps(registers: Map<u16, u16>, entries: Seq<Entry>) -> bool {
    forall|k: int, x: u16|
        0 <= k < entries.len() && #[trigger] covers(entries[k], x) ==> registers.contains_key(x)
            && registers[x] == parsed_registers(entries)->0[x]
}

/// A word that is 0 or 1 holds that number in every pack type of one word.
pub proof fn lemma_unpack_bit(bit: u16, t: PackType)
    requires
        bit <= 1,
        t.width() == 1,
    ensures
        unpack(seq![bit], t) == bit,
        representable(bit as int, t),
        pack(bit as int, t) == seq![bit],
{
    reveal_with_fuel(words_value, 2);
    reveal_with_fuel(unsigned_words, 2);
    assert(seq![bit].drop_last() == Seq::<u16>::empty());
    assert(pack(bit as int, t) =~= seq![bit]);
}

/// The entry of a key of the document, in registers that keep what the
/// document describes, is the entry of the document, where its value is an
/// integer.
proof fn lemma_entry_reads_back(entries: Seq<Entry>, registers: Map<u16, u16>, n: int)
    requires
        parsed_registers(entries) is Some,
        0 <= n < entries.len(),
        entries[n].value is Integer,
        keeps(registers, entries),
    ensures
        key_entry(registers, entries[n].key) == Some(entries[n]),
{
    let entry = entries[n];
    let format = key_format(entry.key)->0;
    let parsed = parsed_registers(entries)->0;
    lemma_entry_stays(entries, n);
    lemma_stored_shape(entry);
    let stored = entry_words(entry)->0;
    let width = format.pack_type.width();
    assert forall|i: int| 0 <= i < width implies registers.contains_key(
        #[trigger] ((format.address + i) as u16),
    ) && registers[(format.address + i) as u16] == parsed[(format.address + i) as u16] by {
        assert(covers(entries[n], (format.address + i) as u16));
        assert(parsed.contains_key((format.address + i) as u16));
    }
    assert(read_words(registers, format.address, width) =~= stored.words);
    match entry.value {
        JsonValue::Integer(v) => {
            if is_word_address(format.address) {
                lemma_unpack_pack(v as int, format.pack_type);
            } else {
                assert(stored.words =~= seq![v as u16]);
                lemma_unpack_bit(v as u16, format.pack_type);
            }
        },
        _ => {},
    }
}

/// Written under the first `n` keys of the document, registers that keep
/// what the document describes give its first `n` entries.
proof fn lemma_serialized_upto(entries: Seq<Entry>, registers: Map<u16, u16>, n: int)
    requires
        parsed_registers(entries) is Some,
        0 <= n <= entries.len(),
        all_integers(entries),
        keeps(registers, entries),
    ensures
        serialized(registers, keys_of(entries).take(n)) == Ok::<Seq<Entry>, Fault>(entries.take(n)),
    decreases n,
{
    let keys = keys_of(entries).take(n);
    if n == 0 {
        assert(entries.take(0) =~= Seq::<Entry>::empty());
    } else {
        lemma_serialized_upto(entries, registers, n - 1);
        assert(keys.drop_last() =~= keys_of(entries).take(n - 1));
        assert(keys.last() == entries[n - 1].key);
        lemma_entry_reads_back(entries, registers, n - 1);
        assert forall|i: int| 0 <= i < n - 1 implies keys.drop_last()[i] != keys.last() by {
            lemma_spans_apart(entries, i, n - 1);
        }
        assert(!keys.drop_last().contains(keys.last()));
        assert(entries.take(n) =~= entries.take(n - 1).push(entries[n - 1]));
    }
}

/// Written under the keys of a document of integers, registers that keep
/// what the document describes give the document again.
pub proof fn lemma_serialized_parsed(entries: Seq<Entry>, registers: Map<u16, u16>)
    requires
        parsed_registers(entries) is Some,
        all_integers(entries),
        keeps(registers, entries),
    ensures
        serialized(registers, keys_of(entries)) == Ok::<Seq<Entry>, Fault>(entries),
{
    lemma_serialized_upto(entries, registers, entries.len() as int);
    assert(keys_of(entries).take(entries.len() as int) == keys_of(entries));
    assert(entries.take(entries.len() as int) == entries);
}

/// Round trip: a document of one entry, whose key has its span in one
/// register class and whose integer is 0 or 1 at a bit address and a value of
/// the pack type of the key at a word address, is read into registers that,
/// written under that key, give the document again.
pub proof fn lemma_round_trip(key: Seq<char>, v: i128)
    requires
        key_format(key) is Some,
        span_fits(key_format(key)->0),
        ({
            let format = key_format(key)->0;
            ||| is_word_address(format.address) && representable(v as int, format.pack_type)
            ||| is_bit_address(format.address) && (v == 0 || v == 1)
        }),
    ensures
        parsed_registers(seq![Entry { key, value: JsonValue::Integer(v) }]) is Some,
        serialized(
            parsed_registers(seq![Entry { key, value: JsonValue::Integer(v) }])->0,
            seq![key],
        ) == Ok::<Seq<Entry>, Fault>(seq![Entry { key, value: JsonValue::Integer(v) }]),
{
    let entry = Entry { key, value: JsonValue::Integer(v) };
    let entries = seq![entry];
    assert(entries.drop_last() =~= Seq::<Entry>::empty());
    assert(entries.last() == entry);
    assert(parsed_registers(entries.drop_last()) == Some(Map::<u16, u16>::empty()));
    assert(entry_words(entry) is Some);
    assert(parsed_registers(entries) is Some);
    assert(keys_of(entries) =~= seq![key]);
    lemma_parsed_domain(entries);
    lemma_serialized_parsed(entries, parsed_registers(entries)->0);
}

/// The keys of a document that describes registers are the schema of the
/// addresses that the registers hold.
pub proof fn lemma_parsed_schema(entries: Seq<Entry>)
    requires
        parsed_registers(entries) is Some,
    ensures
        schema(keys_of(entries), parsed_registers(entries)->0.dom()),
{
    let keys = keys_of(entries);
    let registers = parsed_registers(entries)->0;
    assert forall|i: int| 0 <= i < keys.len() implies key_fits(#[trigger] keys[i]) by {
        lemma_parsed_steps(entries, i);
        lemma_stored_shape(entries[i]);
    }
    assert forall|i: int, j: int, x: u16| 0 <= i < j < keys.len() implies !(#[trigger] key_covers(
        keys[i],
        x,
    ) && #[trigger] key_covers(keys[j], x)) by {
        lemma_spans_apart(entries, i, j);
    }
    lemma_parsed_domain(entries);
    assert forall|x: u16| registers.dom().contains(x) <==> exists|i: int|
        0 <= i < keys.len() && #[trigger] key_covers(keys[i], x) by {
        if registers.contains_key(x) {
            let k = choose|k: int| 0 <= k < entries.len() && #[trigger] covers(entries[k], x);
            lemma_stored_shape(entries[k]);
            assert(key_covers(keys[k], x));
        }
        if exists|i: int| 0 <= i < keys.len() && #[trigger] key_covers(keys[i], x) {
            let i = choose|i: int| 0 <= i < keys.len() && #[trigger] key_covers(keys[i], x);
            lemma_parsed_steps(entries, i);
            lemma_stored_shape(entries[i]);
            assert(covers(entries[i], x));
        }
    }
}

/// Registers whose schema the keys are can be written under the first `n`
/// of them.
proof fn lemma_schema_serialized_upto(keys: Seq<Seq<char>>, registers: Map<u16, u16>, n: int)
    requires
        schema(keys, registers.dom()),
        0 <= n <= keys.len(),
    ensures
        serialized(registers, keys.take(n)) is Ok,
        serialized(registers, keys.take(n))->Ok_0.len() == n,
        forall|i: int|
            0 <= i < n ==> Some(#[trigger] serialized(registers, keys.take(n))->Ok_0[i])
                == key_entry(registers, keys[i]),
    decreases n,
{
    if n > 0 {
        lemma_schema_serialized_upto(keys, registers, n - 1);
        let upto = keys.take(n);
        let key = keys[n - 1];
        assert(upto.drop_last() =~= keys.take(n - 1));
        assert(upto.last() == key);
        assert(key_fits(keys[n - 1]));
        let format = key_format(key)->0;
        assert forall|i: int| 0 <= i < format.pack_type.width() implies registers.contains_key(
            #[trigger] ((format.address + i) as u16),
        ) by {
            assert(key_covers(keys[n - 1], (format.address + i) as u16));
            assert(registers.dom().contains((format.address + i) as u16));
        }
        assert(key_entry(registers, key) is Some);
        assert forall|i: int| 0 <= i < n - 1 implies upto.drop_last()[i] != key by {
            if keys[i] == key {
                assert(key_covers(keys[i], format.address));
                assert(key_covers(keys[n - 1], format.address));
            }
        }
        assert(!upto.drop_last().contains(upto.last()));
    }
}

/// Registers whose schema the keys are can be written under them; the
/// document has one entry for each key.
pub proof fn lemma_schema_serialized(keys: Seq<Seq<char>>, registers: Map<u16, u16>)
    requires
        schema(keys, registers.dom()),
    ensures
        serialized(registers, keys) is Ok,
        serialized(registers, keys)->Ok_0.len() == keys.len(),
        forall|i: int|
            0 <= i < keys.len() ==> Some(#[trigger] serialized(registers, keys)->Ok_0[i])
                == key_entry(registers, keys[i]),
{
    lemma_schema_serialized_upto(keys, registers, keys.len() as int);
    assert(keys.take(keys.len() as int) == keys);
}

/// Whether `registers` hold 0 or 1 at every bit address.
pub open spec fn bits_clean(registers: Map<u16, u16>) -> bool {
    forall|x: u16| is_bit_address(x) && #[trigger] registers.contains_key(x) ==> registers[x] <= 1
}

/// The part of `registers` at the addresses of the first `n` of `keys`.
pub open spec fn covered_part(registers: Map<u16, u16>, keys: Seq<Seq<char>>, n: int) -> Map<
    u16,
    u16,
> {
    registers.restrict(
        Set::new(|x: u16| exists|i: int| 0 <= i < n && #[trigger] key_covers(keys[i], x)),
    )
}

/// The entry that a key of the schema has in registers with clean bits is
/// valid, and stores the words of the key's span.
proof fn lemma_written_entry(keys: Seq<Seq<char>>, registers: Map<u16, u16>, k: int)
    requires
        schema(keys, registers.dom()),
        bits_clean(registers),
        0 <= k < keys.len(),
    ensures
        key_entry(registers, keys[k]) is Some,
        key_fits(keys[k]),
        entry_words(key_entry(registers, keys[k])->0) == Some(
            Stored {
                address: key_format(keys[k])->0.address,
                words: read_words(
                    registers,
                    key_format(keys[k])->0.address,
                    key_format(keys[k])->0.pack_type.width(),
                ),
            },
        ),
{
    let key = keys[k];
    assert(key_fits(keys[k]));
    let format = key_format(key)->0;
    let width = format.pack_type.width();
    let words = read_words(registers, format.address, width);
    assert forall|i: int| 0 <= i < width implies registers.contains_key(
        #[trigger] ((format.address + i) as u16),
    ) by {
        assert(key_covers(keys[k], (format.address + i) as u16));
        assert(registers.dom().contains((format.address + i) as u16));
    }
    lemma_pack_unpack(words, format.pack_type);
    if is_bit_address(format.address) {
        assert(words =~= seq![registers[format.address]]);
        assert(registers.contains_key((format.address + 0) as u16));
        lemma_unpack_bit(registers[format.address], format.pack_type);
    }
}

/// Writing the words of the `n`-th key's span to the part of the registers
/// at the earlier keys gives the part at the keys up to it, and finds the
/// span free.
proof fn lemma_covered_step(keys: Seq<Seq<char>>, registers: Map<u16, u16>, n: int)
    requires
        schema(keys, registers.dom()),
        0 <= n < keys.len(),
    ensures
        span_free(
            covered_part(registers, keys, n),
            key_format(keys[n])->0.address,
            key_format(keys[n])->0.pack_type.width(),
        ),
        store_words(
            covered_part(registers, keys, n),
            key_format(keys[n])->0.address,
            read_words(
                registers,
                key_format(keys[n])->0.address,
                key_format(keys[n])->0.pack_type.width(),
            ),
        ) == covered_part(registers, keys, n + 1),
{
    let before = covered_part(registers, keys, n);
    let after = covered_part(registers, keys, n + 1);
    assert(key_fits(keys[n]));
    let format = key_format(keys[n])->0;
    let width = format.pack_type.width();
    let words = read_words(registers, format.address, width);
    assert forall|i: int| 0 <= i < width implies !before.contains_key(
        #[trigger] ((format.address + i) as u16),
    ) by {
        let x = (format.address + i) as u16;
        if before.contains_key(x) {
            let j = choose|j: int| 0 <= j < n && #[trigger] key_covers(keys[j], x);
            assert(key_covers(keys[n], x));
        }
    }
    lemma_store_words(before, format.address, words);
    let stored = store_words(before, format.address, words);
    assert forall|x: u16| #[trigger] stored.contains_key(x) <==> after.contains_key(x) by {
        if format.address <= x < format.address + width {
            assert(key_covers(keys[n], x));
            assert(registers.dom().contains(x));
        }
        if stored.contains_key(x) && before.contains_key(x) {
            let j = choose|j: int| 0 <= j < n && #[trigger] key_covers(keys[j], x);
            assert(key_covers(keys[j], x));
        }
        if after.contains_key(x) {
            let j = choose|j: int| 0 <= j < n + 1 && #[trigger] key_covers(keys[j], x);
            if j < n {
                assert(before.contains_key(x));
            }
        }
    }
    assert forall|x: u16| #[trigger] stored.contains_key(x) implies stored[x] == after[x] by {
        if format.address <= x < format.address + width {
            assert(words[x - format.address] == registers[(format.address + (x
                - format.address)) as u16]);
        }
    }
    assert(stored =~= after);
}

/// The first `n` entries of the document written from registers with clean
/// bits, read again, are the registers at the addresses of the first `n` keys.
proof fn lemma_reads_back_upto(keys: Seq<Seq<char>>, registers: Map<u16, u16>, n: int)
    requires
        schema(keys, registers.dom()),
        bits_clean(registers),
        0 <= n <= keys.len(),
    ensures
        serialized(registers, keys) is Ok,
        parsed_registers(serialized(registers, keys)->Ok_0.take(n)) == Some(
            covered_part(registers, keys, n),
        ),
    decreases n,
{
    lemma_schema_serialized(keys, registers);
    let entries = serialized(registers, keys)->Ok_0;
    if n == 0 {
        assert(entries.take(0) =~= Seq::<Entry>::empty());
        assert(covered_part(registers, keys, 0) =~= Map::<u16, u16>::empty());
    } else {
        lemma_reads_back_upto(keys, registers, n - 1);
        let upto = entries.take(n);
        assert(upto.drop_last() =~= entries.take(n - 1));
        assert(upto.last() == entries[n - 1]);
        assert(Some(entries[n - 1]) == key_entry(registers, keys[n - 1]));
        lemma_written_entry(keys, registers, n - 1);
        lemma_covered_step(keys, registers, n - 1);
    }
}

/// The document written from registers with clean bits under their schema,
/// read again, gives the registers and the keys again.
pub proof fn lemma_written_reads_back(keys: Seq<Seq<char>>, registers: Map<u16, u16>)
    requires
        schema(keys, registers.dom()),
        bits_clean(registers),
    ensures
        serialized(registers, keys) is Ok,
        parsed_registers(serialized(registers, keys)->Ok_0) == Some(registers),
        keys_of(serialized(registers, keys)->Ok_0) == keys,
{
    lemma_reads_back_upto(keys, registers, keys.len() as int);
    lemma_schema_serialized(keys, registers);
    lemma_serialized_writable(registers, keys);
    let entries = serialized(registers, keys)->Ok_0;
    assert(entries.take(keys.len() as int) == entries);
    assert(covered_part(registers, keys, keys.len() as int) =~= registers);
}

/// The number of words that the keys of `entries` span.
pub open spec fn spanned(entries: Seq<Entry>) -> nat
    decreases entries.len(),
{
    if entries.len() == 0 {
        0
    } else {
        spanned(entries.drop_last()) + match key_format(entries.last().key) {
            Some(format) => format.pack_type.width(),
            None => 0,
        }
    }
}

/// Words written to a free span add as many registers as they are.
pub proof fn lemma_store_words_len(registers: Map<u16, u16>, address: u16, words: Seq<u16>)
    requires
        registers.dom().finite(),
        address + words.len() <= 0x1_0000,
        span_free(registers, address, words.len()),
    ensures
        store_words(registers, address, words).dom().finite(),
        store_words(registers, address, words).len() == registers.len() + words.len(),
    decreases words.len(),
{
    if words.len() > 0 {
        let shorter = words.drop_last();
        let last = (address + words.len() - 1) as u16;
        assert forall|i: int| 0 <= i < shorter.len() implies !registers.contains_key(
            #[trigger] ((address + i) as u16),
        ) by {}
        lemma_store_words_len(registers, address, shorter);
        lemma_store_words(registers, address, shorter);
        let before = store_words(registers, address, shorter);
        assert(!registers.contains_key((address + (words.len() - 1)) as u16));
        assert(!before.contains_key(last));
        assert(store_words(registers, address, words) == before.insert(last, words.last()));
    }
}

/// The registers of a document are as many as the words that its keys span.
pub proof fn lemma_parsed_len(entries: Seq<Entry>)
    requires
        parsed_registers(entries) is Some,
    ensures
        parsed_registers(entries)->0.dom().finite(),
        parsed_registers(entries)->0.len() == spanned(entries),
    decreases entries.len(),
{
    if entries.len() > 0 {
        lemma_parsed_len(entries.drop_last());
        let stored = entry_words(entries.last())->0;
        lemma_stored_shape(entries.last());
        lemma_store_words_len(
            parsed_registers(entries.drop_last())->0,
            stored.address,
            stored.words,
        );
    }
}

} // verus!

//! The register document: a JSON object whose keys are typed addresses and
//! whose values are the integers held at them.

use vstd::prelude::*;
use std::collections::{HashMap, HashSet};
use crate::pack::{key_format, PackFormat};
use crate::text::texts_of;
use crate::table::{lemma_store_words, read_words, span_free, span_present, store_words};
use crate::words::{
    from_words, lemma_pack_len, lemma_pack_unpack, pack, representable, to_words, unpack,
};

verus! {

broadcast use vstd::std_specs::hash::group_hash_axioms;

/// Why a document was not read or not written.
#[derive(Debug)]
pub enum JsonError {
    Incomplete(String),
    Invalid(String),
    NoFile,
    Io(String),
    Other(String),
}

impl JsonError {
    /// The text that describes this error.
    pub fn message(&self) -> (out: String)
        ensures
            out@ == match *self {
                JsonError::Incomplete(text) => text@,
                JsonError::Invalid(text) => text@,
                JsonError::NoFile => "No file"@,
                JsonError::Io(text) => text@,
                JsonError::Other(text) => text@,
            },
    {
        match self {
            JsonError::Incomplete(text) => text.clone(),
            JsonError::Invalid(text) => text.clone(),
            JsonError::NoFile => "No file".to_string(),
            JsonError::Io(text) => text.clone(),
            JsonError::Other(text) => text.clone(),
        }
    }
}

/// The value of one member of a document, as far as a register file reads it.
#[derive(Clone, Copy, Debug, PartialEq, Eq, Structural)]
pub enum JsonValue {
    /// A number without fraction or exponent.
    Integer(i128),
    /// `true` or `false`.
    Bool(bool),
    /// Anything else: a number with a fraction, a string, `null`, an array, an object.
    Other,
}

/// One member of a JSON object.
#[derive(Clone, Debug)]
pub struct JsonMember {
    pub key: String,
    pub value: JsonValue,
}

/// A member as a mathematical value.
pub struct Entry {
    pub key: Seq<char>,
    pub value: JsonValue,
}

impl View for JsonMember {
    type V = Entry;

    open spec fn view(&self) -> Entry {
        Entry { key: self.key@, value: self.value }
    }
}

/// A JSON document, as far as a register file reads it.
#[derive(Clone, Debug)]
pub enum JsonDocument {
    /// An object, with its members in the order of the text.
    Object(Vec<JsonMember>),
    /// Any value that is no object.
    Other,
}

/// The entries that `members` hold.
pub open spec fn entries_of(members: Seq<JsonMember>) -> Seq<Entry> {
    members.map_values(|m: JsonMember| m@)
}

/// The keys of `entries`, in order.
pub open spec fn keys_of(entries: Seq<Entry>) -> Seq<Seq<char>> {
    entries.map_values(|e: Entry| e.key)
}

impl View for JsonDocument {
    type V = Option<Seq<Entry>>;

    open spec fn view(&self) -> Option<Seq<Entry>> {
        match *self {
            JsonDocument::Object(members) => Some(entries_of(members@)),
            JsonDocument::Other => None,
        }
    }
}

impl JsonMember {
    /// The member with the key `key` and the value `value`.
    pub fn new(key: &str, value: JsonValue) -> (out: Self)
        ensures
            out@ == (Entry { key: key@, value }),
    {
        JsonMember { key: key.to_string(), value }
    }
}

/// Whether `a` is the address of a coil or of a discrete input.
pub open spec fn is_bit_address(a: u16) -> bool {
    1 <= a <= 9999 || 10001 <= a <= 19999
}

/// Whether `a` is the address of an input register or of a holding register.
pub open spec fn is_word_address(a: u16) -> bool {
    30001 <= a <= 39999 || 40001 <= a <= 49999
}

/// Whether the span of a key lies in one register class: at a bit address
/// the key is one word wide; at a word address its last address lies in the
/// range that its first address lies in.
pub open spec fn span_fits(format: PackFormat) -> bool {
    let first = format.address;
    let last = format.address + format.pack_type.width() - 1;
    if is_bit_address(first) {
        format.pack_type.width() == 1
    } else {
        (30001 <= first && last <= 39999) || (40001 <= first && last <= 49999)
    }
}

/// Whether the key `key` follows the grammar and its span holds the address `x`.
pub open spec fn key_covers(key: Seq<char>, x: u16) -> bool {
    key_format(key) matches Some(format) && format.address <= x < format.address
        + format.pack_type.width()
}

/// Whether the key `key` follows the grammar and its span lies in one
/// register class.
pub open spec fn key_fits(key: Seq<char>) -> bool {
    key_format(key) matches Some(format) && span_fits(format)
}

/// Whether `keys` are the schema of the addresses `held`: the span of every
/// key lies in one register class, no two spans share an address, and the
/// addresses held are those of the spans.
pub open spec fn schema(keys: Seq<Seq<char>>, held: Set<u16>) -> bool {
    &&& forall|i: int| 0 <= i < keys.len() ==> key_fits(#[trigger] keys[i])
    &&& forall|i: int, j: int, x: u16|
        0 <= i < j < keys.len() ==> !(#[trigger] key_covers(keys[i], x) && #[trigger] key_covers(
            keys[j],
            x,
        ))
    &&& forall|x: u16|
        held.contains(x) <==> exists|i: int| 0 <= i < keys.len() && #[trigger] key_covers(keys[i], x)
}

/// The words that a valid entry stores.
pub struct Stored {
    pub address: u16,
    pub words: Seq<u16>,
}

/// What `entry` stores, if it is valid: the span of its key lies in one
/// register class; at a bit address it stores one word, 0 or 1, given as such
/// an integer or as a boolean; at a word address the words of its integer in
/// the pack type of its key.
pub open spec fn entry_words(entry: Entry) -> Option<Stored> {
    match key_format(entry.key) {
        None => None,
        Some(format) => if !span_fits(format) {
            None
        } else if is_bit_address(format.address) {
            match entry.value {
                JsonValue::Integer(n) => if n == 0 || n == 1 {
                    Some(Stored { address: format.address, words: seq![n as u16] })
                } else {
                    None
                },
                JsonValue::Bool(b) => Some(
                    Stored {
                        address: format.address,
                        words: seq![if b {
                            1u16
                        } else {
                            0u16
                        }],
                    },
                ),
                JsonValue::Other => None,
            }
        } else if is_word_address(format.address) {
            match entry.value {
                JsonValue::Integer(n) => if representable(n as int, format.pack_type) {
                    Some(Stored { address: format.address, words: pack(n as int, format.pack_type) })
                } else {
                    None
                },
                _ => None,
            }
        } else {
            None
        },
    }
}

/// The registers that `entries` describe, if every entry is valid and none
/// writes an address that an earlier entry wrote.
pub open spec fn parsed_registers(entries: Seq<Entry>) -> Option<Map<u16, u16>>
    decreases entries.len(),
{
    if entries.len() == 0 {
        Some(Map::empty())
    } else {
        match (parsed_registers(entries.drop_last()), entry_words(entries.last())) {
            (Some(registers), Some(stored)) => if span_free(
                registers,
                stored.address,
                stored.words.len(),
            ) {
                Some(store_words(registers, stored.address, stored.words))
            } else {
                None
            },
            _ => None,
        }
    }
}

/// Where a prefix of the entries describes no registers, neither do all of them.
pub proof fn lemma_parsed_prefix(entries: Seq<Entry>, n: int)
    requires
        0 <= n <= entries.len(),
        parsed_registers(entries.take(n)) is None,
    ensures
        parsed_registers(entries) is None,
    decreases entries.len(),
{
    if n == entries.len() {
        assert(entries.take(n) == entries);
    } else {
        assert(entries.drop_last().take(n) == entries.take(n));
        lemma_parsed_prefix(entries.drop_last(), n);
    }
}

/// `prefix`, then `key`, then `suffix`.
fn describe(prefix: &str, key: &str, suffix: &str) -> (out: String)
    ensures
        out@ == prefix@ + key@ + suffix@,
{
    let mut out = prefix.to_string();
    out.append(key);
    out.append(suffix);
    out
}

/// Writes `words` to the addresses from `address` on, if `registers` hold none
/// of them yet.
fn insert_free(registers: &mut HashMap<u16, u16>, address: u16, words: &Vec<u16>) -> (free: bool)
    requires
        address + words.len() <= 0x1_0000,
    ensures
        free == span_free(old(registers)@, address, words@.len()),
        free ==> final(registers)@ == store_words(old(registers)@, address, words@),
{
    let ghost before = registers@;
    let mut j: usize = 0;
    while j < words.len()
        invariant
            j <= words.len(),
            address + words.len() <= 0x1_0000,
            before == old(registers)@,
            registers@ == store_words(before, address, words@.take(j as int)),
            forall|k: int| 0 <= k < j ==> !before.contains_key(#[trigger] ((address + k) as u16)),
        decreases words.len() - j,
    {
        let target: u16 = address + j as u16;
        proof {
            lemma_store_words(before, address, words@.take(j as int));
            assert(words@.take(j + 1).drop_last() == words@.take(j as int));
        }
        if registers.insert(target, words[j]).is_some() {
            assert(before.contains_key((address + j) as u16));
            return false;
        }
        j = j + 1;
    }
    assert(words@.take(words.len() as int) == words@);
    true
}

/// Reads a register document: the word at each address that it describes, and
/// its keys in their order. A document is refused where a key breaks the
/// grammar, a span leaves its register class, a value is none of its key's
/// type, or two keys share an address.
pub fn parse(data: JsonDocument) -> (out: Result<(HashMap<u16, u16>, Vec<String>), JsonError>)
    ensures
        match data@ {
            Some(entries) => match parsed_registers(entries) {
                Some(registers) => out matches Ok(read) && read.0@ == registers && texts_of(read.1@)
                    == keys_of(entries),
                None => out matches Err(JsonError::Invalid(_)),
            },
            None => out matches Err(JsonError::Invalid(_)),
        },
{
    let members = match &data {
        JsonDocument::Object(members) => members,
        JsonDocument::Other => {
            return Err(JsonError::Invalid("data is not an object".to_string()));
        },
    };
    let ghost entries = entries_of(members@);
    let mut registers: HashMap<u16, u16> = HashMap::new();
    let mut keys: Vec<String> = Vec::new();
    let mut i: usize = 0;
    assert(entries.take(0) == Seq::<Entry>::empty());
    assert(texts_of(keys@) == keys_of(entries.take(0)));
    while i < members.len()
        invariant
            i <= members.len(),
            entries == entries_of(members@),
            data@ == Some(entries),
            parsed_registers(entries.take(i as int)) == Some(registers@),
            texts_of(keys@) == keys_of(entries.take(i as int)),
        decreases members.len() - i,
    {
        let member = &members[i];
        let key = member.key.as_str();
        let ghost upto = entries.take(i + 1);
        let ghost before = registers@;
        assert(upto.drop_last() == entries.take(i as int));
        assert(upto.last() == member@);
        let format = match PackFormat::parse(key) {
            Ok(format) => format,
            Err(_) => {
                proof {
                    lemma_parsed_prefix(entries, i + 1);
                }
                return Err(JsonError::Invalid(describe("Error parsing key '", key, "'")));
            },
        };
        let address = format.address;
        let width = format.pack_type.len();
        if (1 <= address && address <= 9999) || (10001 <= address && address <= 19999) {
            if width != 1 {
                proof {
                    lemma_parsed_prefix(entries, i + 1);
                }
                return Err(JsonError::Invalid(describe("Key '", key, "' is wider than a bit")));
            }
            let bit: u16 = match member.value {
                JsonValue::Integer(0) => 0,
                JsonValue::Integer(1) => 1,
                JsonValue::Bool(false) => 0,
                JsonValue::Bool(true) => 1,
                _ => {
                    proof {
                        lemma_parsed_prefix(entries, i + 1);
                    }
                    return Err(JsonError::Invalid(describe("Key '", key, "' should be 0 or 1")));
                },
            };
            let mut words: Vec<u16> = Vec::new();
            words.push(bit);
            assert(words@ =~= seq![bit]);
            if !insert_free(&mut registers, address, &words) {
                proof {
                    lemma_parsed_prefix(entries, i + 1);
                }
                return Err(JsonError::Invalid(describe("Overwrote register at key '", key, "'")));
            }
        } else if (30001 <= address && address as usize + width <= 40000) || (40001 <= address
            && address as usize + width <= 50000) {
            let number = match member.value {
                JsonValue::Integer(n) => n,
                _ => {
                    proof {
                        lemma_parsed_prefix(entries, i + 1);
                    }
                    return Err(JsonError::Invalid(describe("Key '", key, "' should be an integer")));
                },
            };
            let words = match to_words(number, format.pack_type) {
                Some(words) => words,
                None => {
                    proof {
                        lemma_parsed_prefix(entries, i + 1);
                    }
                    return Err(
                        JsonError::Invalid(describe("Value at key '", key, "' does not fit its type")),
                    );
                },
            };
            proof {
                lemma_pack_len(number as int, format.pack_type);
            }
            if !insert_free(&mut registers, address, &words) {
                proof {
                    lemma_parsed_prefix(entries, i + 1);
                }
                return Err(JsonError::Invalid(describe("Overwrote register at key '", key, "'")));
            }
        } else {
            proof {
                lemma_parsed_prefix(entries, i + 1);
            }
            return Err(JsonError::Invalid(describe("Key '", key, "' leaves the modbus ranges")));
        }
        let ghost earlier = keys@;
        keys.push(member.key.clone());
        proof {
            assert(upto =~= entries.take(i as int).push(member@));
            assert(keys_of(upto) =~= keys_of(entries.take(i as int)).push(member.key@));
            assert(texts_of(keys@) =~= texts_of(earlier).push(member.key@));
        }
        i = i + 1;
    }
    assert(entries.take(members.len() as int) == entries);
    Ok((registers, keys))
}

/// The entry that `key` has in a document of `registers`: the integer that the
/// words of its span hold in its pack type. None where the key does not
/// follow the grammar or a word of the span is missing.
pub open spec fn key_entry(registers: Map<u16, u16>, key: Seq<char>) -> Option<Entry> {
    match key_format(key) {
        None => None,
        Some(format) => if span_present(registers, format.address, format.pack_type.width()) {
            Some(
                Entry {
                    key,
                    value: JsonValue::Integer(
                        unpack(
                            read_words(registers, format.address, format.pack_type.width()),
                            format.pack_type,
                        ) as i128,
                    ),
                },
            )
        } else {
            None
        },
    }
}

/// Why a list of keys has no document.
pub enum Fault {
    /// A key does not follow the grammar, or a word of its span is missing.
    Unreadable,
    /// A key occurs twice.
    Duplicate,
}

/// The document of `registers` under `keys`: one entry for each key, in order.
/// The first key that has no entry, or that repeats an earlier key, decides the
/// fault.
pub open spec fn serialized(registers: Map<u16, u16>, keys: Seq<Seq<char>>) -> Result<
    Seq<Entry>,
    Fault,
>
    decreases keys.len(),
{
    if keys.len() == 0 {
        Ok(Seq::empty())
    } else {
        match serialized(registers, keys.drop_last()) {
            Err(fault) => Err(fault),
            Ok(entries) => match key_entry(registers, keys.last()) {
                None => Err(Fault::Unreadable),
                Some(entry) => if keys.drop_last().contains(keys.last()) {
                    Err(Fault::Duplicate)
                } else {
                    Ok(entries.push(entry))
                },
            },
        }
    }
}

/// The fault of a prefix of the keys is the fault of all of them.
pub proof fn lemma_serialized_prefix(registers: Map<u16, u16>, keys: Seq<Seq<char>>, n: int)
    requires
        0 <= n <= keys.len(),
        serialized(registers, keys.take(n)) is Err,
    ensures
        serialized(registers, keys) == serialized(registers, keys.take(n)),
    decreases keys.len(),
{
    if n == keys.len() {
        assert(keys.take(n) == keys);
    } else {
        assert(keys.drop_last().take(n) == keys.take(n));
        lemma_serialized_prefix(registers, keys.drop_last(), n);
    }
}

/// Reads the `count` words from `address` on, if `registers` hold them all.
fn words_at(registers: &HashMap<u16, u16>, address: u16, count: usize) -> (out: Option<Vec<u16>>)
    requires
        count <= 4,
    ensures
        span_present(registers@, address, count as nat) ==> out is Some && out->0@ == read_words(
            registers@,
            address,
            count as nat,
        ),
        !span_present(registers@, address, count as nat) ==> out is None,
{
    let mut words: Vec<u16> = Vec::new();
    let mut j: usize = 0;
    while j < count
        invariant
            j <= count <= 4,
            words@.len() == j,
            address + j <= 0x1_0000,
            forall|k: int|
                0 <= k < j ==> registers@.contains_key(#[trigger] ((address + k) as u16))
                    && words@[k] == registers@[(address + k) as u16],
        decreases count - j,
    {
        if address as u32 + j as u32 > 0xFFFF {
            return None;
        }
        let target: u16 = address + j as u16;
        match registers.get(&target) {
            Some(word) => {
                words.push(*word);
            },
            None => {
                assert(!registers@.contains_key((address + j) as u16));
                return None;
            },
        }
        j = j + 1;
    }
    assert(words@ =~= read_words(registers@, address, count as nat));
    Some(words)
}

/// Whether `key` is among the first `n` of `keys`.
fn seen_before(keys: &Vec<String>, n: usize, key: &String) -> (out: bool)
    requires
        n <= keys.len(),
    ensures
        out == texts_of(keys@).take(n as int).contains(key@),
{
    let ghost earlier = texts_of(keys@).take(n as int);
    let mut j: usize = 0;
    while j < n
        invariant
            j <= n <= keys.len(),
            earlier == texts_of(keys@).take(n as int),
            forall|k: int| 0 <= k < j ==> earlier[k] != key@,
        decreases n - j,
    {
        if keys[j] == *key {
            assert(earlier[j as int] == key@);
            return true;
        }
        j = j + 1;
    }
    false
}

/// Writes a register document: for each key, in order, the integer that the
/// words of its span hold.
pub fn registers_to_object(registers: &HashMap<u16, u16>, keys: Vec<String>) -> (out: Result<
    JsonDocument,
    JsonError,
>)
    ensures
        match serialized(registers@, texts_of(keys@)) {
            Ok(entries) => out matches Ok(document) && document@ == Some(entries),
            Err(Fault::Unreadable) => out matches Err(JsonError::Other(_)),
            Err(Fault::Duplicate) => out matches Err(JsonError::Invalid(_)),
        },
        out matches Ok(document) ==> document@ matches Some(entries) && all_writable(entries)
            && keys_of(entries) == texts_of(keys@),
{
    let ghost texts = texts_of(keys@);
    proof {
        lemma_serialized_writable(registers@, texts);
    }
    let mut members: Vec<JsonMember> = Vec::new();
    let mut addresses: HashSet<u16> = HashSet::new();
    let mut i: usize = 0;
    assert(texts.take(0) == Seq::<Seq<char>>::empty());
    assert(entries_of(members@) =~= Seq::<Entry>::empty());
    while i < keys.len()
        invariant
            i <= keys.len(),
            texts == texts_of(keys@),
            serialized(registers@, texts.take(i as int)) == Ok::<Seq<Entry>, Fault>(
                entries_of(members@),
            ),
            forall|j: int|
                0 <= j < i ==> (#[trigger] key_format(keys@[j]@)) is Some && addresses@.contains(
                    key_format(keys@[j]@)->0.address,
                ),
        decreases keys.len() - i,
    {
        let key = &keys[i];
        let ghost upto = texts.take(i + 1);
        assert(upto.drop_last() == texts.take(i as int));
        assert(upto.last() == key@);
        let format = match PackFormat::parse(key.as_str()) {
            Ok(format) => format,
            Err(_) => {
                proof {
                    lemma_serialized_prefix(registers@, texts, i + 1);
                }
                return Err(JsonError::Other(describe("Failed to parse ", key.as_str(), "")));
            },
        };
        let words = match words_at(registers, format.address, format.pack_type.len()) {
            Some(words) => words,
            None => {
                proof {
                    lemma_serialized_prefix(registers@, texts, i + 1);
                }
                return Err(
                    JsonError::Other(describe("Mismatching length at address ", key.as_str(), "")),
                );
            },
        };
        let number = from_words(&words, format.pack_type);
        if addresses.contains(&format.address) && seen_before(&keys, i, key) {
            proof {
                lemma_serialized_prefix(registers@, texts, i + 1);
            }
            return Err(JsonError::Invalid("Overwrote json map".to_string()));
        }
        proof {
            if texts.take(i as int).contains(key@) {
                let j = choose|j: int| 0 <= j < i && texts.take(i as int)[j] == key@;
                assert(texts[j] == keys@[j]@);
                assert(key_format(keys@[j]@) == Some(format));
            }
        }
        addresses.insert(format.address);
        let ghost earlier = members@;
        members.push(JsonMember { key: key.clone(), value: JsonValue::Integer(number) });
        proof {
            let entry = key_entry(registers@, key@)->0;
            assert(entries_of(members@) =~= entries_of(earlier).push(entry));
        }
        i = i + 1;
    }
    assert(texts.take(keys.len() as int) == texts);
    Ok(JsonDocument::Object(members))
}

/// What `serde_json` reads from `text`: nothing where the text is no JSON;
/// else the members of the object that it is, in the order of the text, or
/// nothing in their place where it is another value.
pub uninterp spec fn text_document(text: Seq<char>) -> Option<Option<Seq<Entry>>>;

/// The text that `serde_json` writes for the object of `entries`, pretty
/// printed; nothing where it fails.
pub uninterp spec fn pretty_text(entries: Seq<Entry>) -> Option<Seq<char>>;

/// Whether `value` can stand in a JSON text: a boolean, or an integer that
/// fits 64 bits, signed or unsigned.
pub open spec fn writable(value: JsonValue) -> bool {
    match value {
        JsonValue::Integer(n) => -0x8000_0000_0000_0000 <= n <= 0xFFFF_FFFF_FFFF_FFFF,
        JsonValue::Bool(_) => true,
        JsonValue::Other => false,
    }
}

/// Whether every value of `entries` can stand in a JSON text.
pub open spec fn all_writable(entries: Seq<Entry>) -> bool {
    forall|i: int| 0 <= i < entries.len() ==> writable((#[trigger] entries[i]).value)
}

/// A document written from registers has the keys it was written under, and
/// every value of it can stand in a JSON text.
pub proof fn lemma_serialized_writable(registers: Map<u16, u16>, keys: Seq<Seq<char>>)
    ensures
        serialized(registers, keys) matches Ok(entries) ==> all_writable(entries) && keys_of(
            entries,
        ) == keys,
    decreases keys.len(),
{
    if keys.len() > 0 {
        lemma_serialized_writable(registers, keys.drop_last());
        if let Ok(entries) = serialized(registers, keys) {
            let earlier = serialized(registers, keys.drop_last())->Ok_0;
            let format = key_format(keys.last())->0;
            let words = read_words(registers, format.address, format.pack_type.width());
            lemma_pack_unpack(words, format.pack_type);
            assert(entries == earlier.push(key_entry(registers, keys.last())->0));
            assert(keys_of(entries) =~= keys_of(earlier).push(keys.last()));
            assert(keys_of(earlier).push(keys.last()) =~= keys);
        }
    } else {
        assert(keys_of(Seq::<Entry>::empty()) =~= keys);
    }
}

/// Reads a JSON text.
///
/// Calls `serde_json::from_str` for a `serde_json::Value` and hands out what
/// a register document holds: of an object each member with its key, a
/// boolean as such, a number as its integer where `Number::as_i128` gives
/// one, anything else as `Other`. Trusted: the result is a function of the
/// text alone. On refusal the error's text comes back.
#[verifier::external_body]
fn read_text(text: &str) -> (out: Result<JsonDocument, String>)
    ensures
        out matches Ok(document) ==> text_document(text@) == Some(document@),
        out is Err ==> text_document(text@) is None,
{
    let value: serde_json::Value = serde_json::from_str(text).map_err(|e| e.to_string())?;
    let serde_json::Value::Object(map) = value else {
        return Ok(JsonDocument::Other);
    };
    let member = |(key, value): (String, serde_json::Value)| JsonMember {
        key,
        value: match value {
            serde_json::Value::Bool(bit) => JsonValue::Bool(bit),
            serde_json::Value::Number(n) => n.as_i128().map_or(JsonValue::Other, JsonValue::Integer),
            _ => JsonValue::Other,
        },
    };
    Ok(JsonDocument::Object(map.into_iter().map(member).collect()))
}

/// Writes the object of `members` as pretty-printed JSON text.
///
/// Builds a `serde_json::Map` of the members, each integer through
/// `Number::from_i128`, and calls `serde_json::to_string_pretty`. Trusted: the
/// result is a function of the members alone. On failure the error's text
/// comes back.
#[verifier::external_body]
fn write_text(members: &Vec<JsonMember>) -> (out: Result<String, String>)
    requires
        all_writable(entries_of(members@)),
    ensures
        out matches Ok(text) ==> pretty_text(entries_of(members@)) == Some(text@),
        out is Err ==> pretty_text(entries_of(members@)) is None,
{
    let value = |member: &JsonMember| match member.value {
        JsonValue::Integer(n) => serde_json::Number::from_i128(n).map(serde_json::Value::Number),
        JsonValue::Bool(bit) => Some(serde_json::Value::Bool(bit)),
        JsonValue::Other => None,
    };
    let map: serde_json::Map<String, serde_json::Value> = members.iter().map(
        |member| (member.key.clone(), value(member).unwrap_or(serde_json::Value::Null)),
    ).collect();
    serde_json::to_string_pretty(&serde_json::Value::Object(map)).map_err(|e| e.to_string())
}

/// Reads a JSON text into a document. A text that is no JSON gives `Other`.
pub fn decode(text: &str) -> (out: Result<JsonDocument, JsonError>)
    ensures
        match text_document(text@) {
            Some(document) => out matches Ok(read) && read@ == document,
            None => out matches Err(JsonError::Other(_)),
        },
{
    match read_text(text) {
        Ok(document) => Ok(document),
        Err(reason) => Err(JsonError::Other(reason)),
    }
}

/// Whether `value` can stand in a JSON text.
fn is_writable(value: &JsonValue) -> (out: bool)
    ensures
        out == writable(*value),
{
    match value {
        JsonValue::Integer(n) => -0x8000_0000_0000_0000 <= *n && *n <= 0xFFFF_FFFF_FFFF_FFFF,
        JsonValue::Bool(_) => true,
        JsonValue::Other => false,
    }
}

/// Writes a document as pretty-printed JSON text. A document that is no
/// object, or that holds a value that cannot stand in a JSON text, gives
/// `Other`, and so does a failure to write.
pub fn encode(document: &JsonDocument) -> (out: Result<String, JsonError>)
    ensures
        match document@ {
            Some(entries) => if all_writable(entries) {
                match pretty_text(entries) {
                    Some(text) => out matches Ok(written) && written@ == text,
                    None => out matches Err(JsonError::Other(_)),
                }
            } else {
                out matches Err(JsonError::Other(_))
            },
            None => out matches Err(JsonError::Other(_)),
        },
{
    let members = match document {
        JsonDocument::Object(members) => members,
        JsonDocument::Other => {
            return Err(JsonError::Other("document is not an object".to_string()));
        },
    };
    let mut i: usize = 0;
    while i < members.len()
        invariant
            i <= members.len(),
            document@ == Some(entries_of(members@)),
            forall|k: int| 0 <= k < i ==> writable((#[trigger] entries_of(members@)[k]).value),
        decreases members.len() - i,
    {
        if !is_writable(&members[i].value) {
            assert(!writable(entries_of(members@)[i as int].value));
            return Err(
                JsonError::Other(describe("Value at key '", members[i].key.as_str(), "' is no JSON")),
            );
        }
        i = i + 1;
    }
    match write_text(members) {
        Ok(text) => Ok(text),
        Err(_) => Err(JsonError::Other("Error converting to string".to_string())),
    }
}

/// Whether two documents are equal: both are no object, or they hold the
/// same members in the same order.
pub fn same_document(a: &JsonDocument, b: &JsonDocument) -> (out: bool)
    ensures
        out == (a@ == b@),
{
    match (a, b) {
        (JsonDocument::Other, JsonDocument::Other) => true,
        (JsonDocument::Object(left), JsonDocument::Object(right)) => {
            if left.len() != right.len() {
                assert(entries_of(left@).len() != entries_of(right@).len());
                return false;
            }
            let mut i: usize = 0;
            while i < left.len()
                invariant
                    i <= left.len(),
                    left.len() == right.len(),
                    a@ == Some(entries_of(left@)),
                    b@ == Some(entries_of(right@)),
                    forall|k: int|
                        0 <= k < i ==> #[trigger] entries_of(left@)[k] == entries_of(right@)[k],
                decreases left.len() - i,
            {
                if !(left[i].key == right[i].key && left[i].value == right[i].value) {
                    assert(entries_of(left@)[i as int] != entries_of(right@)[i as int]);
                    return false;
                }
                assert(entries_of(left@)[i as int] == entries_of(right@)[i as int]);
                i = i + 1;
            }
            assert(entries_of(left@) =~= entries_of(right@));
            true
        },
        _ => false,
    }
}

} // verus!

//! The register store: one table of words for each of the four register
//! classes, and the keys of the document that the store was made from.

use vstd::prelude::*;
use std::collections::HashMap;
use vstd::std_specs::iter::IteratorSpec;
use crate::json::{
    all_writable, decode, encode, is_bit_address, is_word_address, key_covers, key_fits, keys_of,
    lemma_serialized_writable, parse, parsed_registers, pretty_text, registers_to_object,
    same_document, schema, serialized, text_document, Entry, Fault, JsonDocument, JsonError,
};
use crate::pack::key_format;
use crate::laws::{
    all_integers, lemma_parsed_bits, lemma_parsed_domain, lemma_parsed_schema,
    lemma_schema_serialized, lemma_serialized_parsed, lemma_written_reads_back,
};
use crate::text::texts_of;
use crate::table::{
    lemma_present_run, lemma_present_run_is, lemma_store_words, present_run, read_words,
    store_words,
};

verus! {

broadcast use vstd::std_specs::hash::group_hash_axioms;

/// A table of words by address.
pub type Register = HashMap<u16, u16>;

/// Why a read or a write was refused.
#[derive(Clone, Copy, Debug, PartialEq, Eq, Structural)]
pub enum RegisterError {
    OutOfBounds,
    FileWriteError,
}

/// The four register classes.
#[derive(Clone, Copy, Debug, PartialEq, Eq, Structural)]
pub enum RegisterType {
    Inputs,
    Coils,
    HoldingRegisters,
    InputRegisters,
}

impl RegisterType {
    /// Whether `address` lies in the range of this class.
    pub open spec fn holds(self, address: u16) -> bool {
        match self {
            RegisterType::Coils => 1 <= address <= 9999,
            RegisterType::Inputs => 10001 <= address <= 19999,
            RegisterType::InputRegisters => 30001 <= address <= 39999,
            RegisterType::HoldingRegisters => 40001 <= address <= 49999,
        }
    }

    /// Whether `address` lies in the range of this class.
    pub fn contains(&self, address: u16) -> (out: bool)
        ensures
            out == self.holds(address),
    {
        match self {
            RegisterType::Coils => 1 <= address && address <= 9999,
            RegisterType::Inputs => 10001 <= address && address <= 19999,
            RegisterType::InputRegisters => 30001 <= address && address <= 39999,
            RegisterType::HoldingRegisters => 40001 <= address && address <= 49999,
        }
    }

    /// The name of this class.
    pub fn name(&self) -> (out: String)
        ensures
            out@ == match *self {
                RegisterType::Coils => "Coils"@,
                RegisterType::HoldingRegisters => "Holding Registers"@,
                RegisterType::InputRegisters => "Input Registers"@,
                RegisterType::Inputs => "Inputs"@,
            },
    {
        match self {
            RegisterType::Coils => "Coils".to_string(),
            RegisterType::HoldingRegisters => "Holding Registers".to_string(),
            RegisterType::InputRegisters => "Input Registers".to_string(),
            RegisterType::Inputs => "Inputs".to_string(),
        }
    }
}

/// The store.
pub struct RegisterManager {
    inputs: Register,
    coils: Register,
    holding_registers: Register,
    input_registers: Register,
    keys: Vec<String>,
}

/// The four tables in one map.
pub open spec fn joined(
    coils: Map<u16, u16>,
    inputs: Map<u16, u16>,
    input_registers: Map<u16, u16>,
    holding_registers: Map<u16, u16>,
) -> Map<u16, u16> {
    coils.union_prefer_right(inputs).union_prefer_right(input_registers).union_prefer_right(
        holding_registers,
    )
}

/// The parts of registers at bit and word addresses, joined, are the
/// registers.
pub proof fn lemma_parts_join(registers: Map<u16, u16>)
    requires
        forall|x: u16| #[trigger]
            registers.contains_key(x) ==> is_bit_address(x) || is_word_address(x),
    ensures
        joined(
            class_part(registers, RegisterType::Coils),
            class_part(registers, RegisterType::Inputs),
            class_part(registers, RegisterType::InputRegisters),
            class_part(registers, RegisterType::HoldingRegisters),
        ) == registers,
{
    let whole = joined(
        class_part(registers, RegisterType::Coils),
        class_part(registers, RegisterType::Inputs),
        class_part(registers, RegisterType::InputRegisters),
        class_part(registers, RegisterType::HoldingRegisters),
    );
    assert forall|x: u16| #[trigger] whole.contains_key(x) <==> registers.contains_key(x) by {
        if registers.contains_key(x) {
            assert(RegisterType::Coils.holds(x) || RegisterType::Inputs.holds(x)
                || RegisterType::InputRegisters.holds(x) || RegisterType::HoldingRegisters.holds(x));
        }
    }
    assert(whole =~= registers);
}

/// What a read of `count` words from `address` in a table of class `class`
/// returns: the words, where the address lies in the class and the table holds
/// the whole span.
pub open spec fn read_outcome(
    table: Map<u16, u16>,
    class: RegisterType,
    address: u16,
    count: u16,
) -> Result<Seq<u16>, RegisterError> {
    if class.holds(address) && present_run(table, address as int, count as nat) == count {
        Ok(read_words(table, address, count as nat))
    } else {
        Err(RegisterError::OutOfBounds)
    }
}

/// The table after a write of `values` from `address` on: the values up to
/// the first address that the table does not hold are written, the rest is
/// as it was.
pub open spec fn written_table(table: Map<u16, u16>, address: u16, values: Seq<u16>) -> Map<
    u16,
    u16,
> {
    store_words(table, address, values.take(present_run(table, address as int, values.len()) as int))
}

/// Whether a write of `count` values from `address` on finds every address.
pub open spec fn write_fits(table: Map<u16, u16>, address: u16, count: nat) -> bool {
    present_run(table, address as int, count) == count
}

impl RegisterManager {
    /// The table of class `class`.
    pub closed spec fn table(&self, class: RegisterType) -> Map<u16, u16> {
        match class {
            RegisterType::Coils => self.coils@,
            RegisterType::Inputs => self.inputs@,
            RegisterType::InputRegisters => self.input_registers@,
            RegisterType::HoldingRegisters => self.holding_registers@,
        }
    }

    /// The keys of the document that the store was made from, in order.
    pub closed spec fn keys(&self) -> Seq<Seq<char>> {
        texts_of(self.keys@)
    }

    /// Every address that a table holds lies in the range of its class.
    pub open spec fn in_class(&self) -> bool {
        forall|class: RegisterType, address: u16| #[trigger]
            self.table(class).contains_key(address) ==> class.holds(address)
    }

    /// All registers of the store in one map.
    pub open spec fn registers(&self) -> Map<u16, u16> {
        joined(
            self.table(RegisterType::Coils),
            self.table(RegisterType::Inputs),
            self.table(RegisterType::InputRegisters),
            self.table(RegisterType::HoldingRegisters),
        )
    }

    /// Every address that a table holds lies in the range of its class, and
    /// the keys are the schema of the registers: the span of every key lies
    /// in one class and is held as a whole, no two spans share an address, and
    /// no register is held outside the spans.
    #[verifier::type_invariant]
    pub open spec fn wf(&self) -> bool {
        &&& self.in_class()
        &&& schema(self.keys(), self.registers().dom())
    }

    /// Every coil and every discrete input is 0 or 1.
    pub open spec fn bits_clean(&self) -> bool {
        forall|class: RegisterType, address: u16|
            (class == RegisterType::Coils || class == RegisterType::Inputs) && #[trigger]
            self.table(class).contains_key(address) ==> self.table(class)[address] <= 1
    }

    /// A store without registers and without keys.
    pub fn new() -> (out: Self)
        ensures
            out.wf(),
            out.bits_clean(),
            out.keys() == Seq::<Seq<char>>::empty(),
            forall|class: RegisterType| #[trigger] out.table(class) == Map::<u16, u16>::empty(),
    {
        let inputs: Register = HashMap::new();
        let coils: Register = HashMap::new();
        let holding_registers: Register = HashMap::new();
        let input_registers: Register = HashMap::new();
        let keys: Vec<String> = Vec::new();
        proof {
            assert(texts_of(keys@) =~= Seq::<Seq<char>>::empty());
            assert(joined(coils@, inputs@, input_registers@, holding_registers@).dom()
                =~= Set::<u16>::empty());
        }
        RegisterManager { inputs, coils, holding_registers, input_registers, keys }
    }

    /// The table of class `registers_type`.
    fn register_select(&self, registers_type: RegisterType) -> (out: &Register)
        ensures
            out@ == self.table(registers_type),
    {
        match registers_type {
            RegisterType::Coils => &self.coils,
            RegisterType::HoldingRegisters => &self.holding_registers,
            RegisterType::InputRegisters => &self.input_registers,
            RegisterType::Inputs => &self.inputs,
        }
    }

    /// Reads `cnt` consecutive words from `addr` on.
    pub fn read_register(&self, registers_type: RegisterType, addr: u16, cnt: u16) -> (out: Result<
        Vec<u16>,
        RegisterError,
    >)
        ensures
            match read_outcome(self.table(registers_type), registers_type, addr, cnt) {
                Ok(words) => out matches Ok(read) && read@ == words,
                Err(error) => out == Err::<Vec<u16>, RegisterError>(error),
            },
    {
        if !registers_type.contains(addr) {
            return Err(RegisterError::OutOfBounds);
        }
        let registers = self.register_select(registers_type);
        let mut response: Vec<u16> = Vec::new();
        let mut i: u16 = 0;
        while i < cnt
            invariant
                i <= cnt,
                registers@ == self.table(registers_type),
                registers_type.holds(addr),
                response@.len() == i,
                addr + i <= 0x1_0000,
                forall|k: int|
                    0 <= k < i ==> registers@.contains_key(#[trigger] ((addr + k) as u16))
                        && response@[k] == registers@[(addr + k) as u16],
            decreases cnt - i,
        {
            if addr as u32 + i as u32 > 0xFFFF {
                proof {
                    lemma_present_run_is(registers@, addr as int, cnt as nat, i as nat);
                }
                return Err(RegisterError::OutOfBounds);
            }
            let target: u16 = addr + i;
            match registers.get(&target) {
                Some(value) => {
                    response.push(*value);
                },
                None => {
                    proof {
                        lemma_present_run_is(registers@, addr as int, cnt as nat, i as nat);
                    }
                    return Err(RegisterError::OutOfBounds);
                },
            }
            i = i + 1;
        }
        proof {
            lemma_present_run_is(registers@, addr as int, cnt as nat, cnt as nat);
            assert(response@ =~= read_words(registers@, addr, cnt as nat));
        }
        Ok(response)
    }

    /// Writes `values` to the addresses from `addr` on, as far as the table of
    /// class `registers_type` holds them; the first address that it does not
    /// hold ends the write with `OutOfBounds`.
    pub fn write_register(&mut self, registers_type: RegisterType, addr: u16, values: &[u16]) -> (out:
        Result<(), RegisterError>)
        ensures
            final(self).table(registers_type) == written_table(
                old(self).table(registers_type),
                addr,
                values@,
            ),
            forall|class: RegisterType|
                class != registers_type ==> #[trigger] final(self).table(class) == old(self).table(
                    class,
                ),
            final(self).keys() == old(self).keys(),
            final(self).wf(),
            out == if write_fits(old(self).table(registers_type), addr, values@.len()) {
                Ok::<(), RegisterError>(())
            } else {
                Err(RegisterError::OutOfBounds)
            },
    {
        // The tables leave the store for the write, so that the store is
        // whole whenever it can be seen.
        let mut taken = RegisterManager::new();
        std::mem::swap(self, &mut taken);
        proof {
            use_type_invariant(&taken);
        }
        let ghost before = taken;
        let RegisterManager { mut inputs, mut coils, mut holding_registers, mut input_registers, keys } =
            taken;
        let out = match registers_type {
            RegisterType::Coils => write_words(&mut coils, addr, values),
            RegisterType::HoldingRegisters => write_words(&mut holding_registers, addr, values),
            RegisterType::InputRegisters => write_words(&mut input_registers, addr, values),
            RegisterType::Inputs => write_words(&mut inputs, addr, values),
        };
        proof {
            assert forall|a: u16| #[trigger] coils@.contains_key(a) implies RegisterType::Coils.holds(
                a,
            ) by {
                assert(coils@.dom().contains(a));
                assert(before.table(RegisterType::Coils).contains_key(a));
            }
            assert forall|a: u16| #[trigger] inputs@.contains_key(a) implies RegisterType::Inputs.holds(
                a,
            ) by {
                assert(inputs@.dom().contains(a));
                assert(before.table(RegisterType::Inputs).contains_key(a));
            }
            assert forall|a: u16| #[trigger]
                input_registers@.contains_key(a) implies RegisterType::InputRegisters.holds(a) by {
                assert(input_registers@.dom().contains(a));
                assert(before.table(RegisterType::InputRegisters).contains_key(a));
            }
            assert forall|a: u16| #[trigger]
                holding_registers@.contains_key(a) implies RegisterType::HoldingRegisters.holds(
                a,
            ) by {
                assert(holding_registers@.dom().contains(a));
                assert(before.table(RegisterType::HoldingRegisters).contains_key(a));
            }
        }
        proof {
            assert(joined(coils@, inputs@, input_registers@, holding_registers@).dom()
                =~= before.registers().dom());
        }
        *self = RegisterManager { inputs, coils, holding_registers, input_registers, keys };
        out
    }
}

/// Writes `values` to the addresses from `addr` on, as far as `table` holds them.
fn write_words(table: &mut Register, addr: u16, values: &[u16]) -> (out: Result<(), RegisterError>)
    ensures
        final(table)@ == written_table(old(table)@, addr, values@),
        final(table)@.dom() == old(table)@.dom(),
        out == if write_fits(old(table)@, addr, values@.len()) {
            Ok::<(), RegisterError>(())
        } else {
            Err(RegisterError::OutOfBounds)
        },
{
    let ghost before = table@;
    let mut i: usize = 0;
    while i < values.len()
        invariant
            i <= values.len(),
            addr + i <= 0x1_0000,
            before == old(table)@,
            table@ == store_words(before, addr, values@.take(i as int)),
            table@.dom() == before.dom(),
            forall|k: int| 0 <= k < i ==> before.contains_key(#[trigger] ((addr + k) as u16)),
        decreases values.len() - i,
    {
        if i > 0xFFFF || addr as usize + i > 0xFFFF {
            proof {
                lemma_present_run_is(before, addr as int, values@.len(), i as nat);
            }
            return Err(RegisterError::OutOfBounds);
        }
        let target: u16 = addr + i as u16;
        if !table.contains_key(&target) {
            proof {
                lemma_present_run_is(before, addr as int, values@.len(), i as nat);
            }
            return Err(RegisterError::OutOfBounds);
        }
        proof {
            assert(values@.take(i + 1).drop_last() == values@.take(i as int));
            assert(before.contains_key((addr + i) as u16));
        }
        table.insert(target, values[i]);
        assert(table@.dom() =~= before.dom());
        i = i + 1;
    }
    proof {
        lemma_present_run_is(before, addr as int, values@.len(), values@.len());
        assert(values@.take(values@.len() as int) == values@);
    }
    Ok(())
}

/// The part of `registers` whose addresses lie in the range of `class`.
pub open spec fn class_part(registers: Map<u16, u16>, class: RegisterType) -> Map<u16, u16> {
    Map::new(|a: u16| registers.contains_key(a) && class.holds(a), |a: u16| registers[a])
}

/// Copies the registers of class `class` out of `registers`.
fn select(registers: &Register, class: RegisterType) -> (out: Register)
    ensures
        out@ == class_part(registers@, class),
{
    let mut out: Register = HashMap::new();
    for pair in it: registers.iter()
        invariant
            it.seq() == registers.iter().remaining(),
            forall|a: u16|
                #![trigger out@.contains_key(a)]
                out@.contains_key(a) ==> registers@.contains_key(a) && class.holds(a) && out@[a]
                    == registers@[a],
            forall|j: int|
                0 <= j < it.index() && class.holds(*(#[trigger] it.seq()[j]).0) ==> out@.contains_key(
                    *it.seq()[j].0,
                ),
    {
        let (address, word) = pair;
        proof {
            let items = registers.iter().remaining();
            let j = it.index();
            assert(items[j] == pair);
            assert(registers@.contains_key(*items[j].0) && registers@[*items[j].0] == *items[j].1);
        }
        let ghost before = out@;
        if class.contains(*address) {
            out.insert(*address, *word);
        }
        assert forall|a: u16| #![trigger out@.contains_key(a)] out@.contains_key(a)
            implies registers@.contains_key(a) && class.holds(a) && out@[a] == registers@[a] by {
            if a != *address {
                assert(before.contains_key(a));
            }
        }
    }
    proof {
        let items = registers.iter().remaining();
        assert forall|a: u16| registers@.contains_key(a) && class.holds(a) implies out@.contains_key(
            a,
        ) by {
            assert(items.contains((&a, &registers@[a])));
            let j = choose|j: int| 0 <= j < items.len() && items[j] == (&a, &registers@[a]);
            assert(*items[j].0 == a);
        }
        assert(out@ =~= class_part(registers@, class));
    }
    out
}

/// Adds the registers of `from` to `into`; where both hold an address, the
/// word of `from` stays.
fn merge(into: &mut Register, from: &Register)
    ensures
        final(into)@ == old(into)@.union_prefer_right(from@),
{
    let ghost start = into@;
    for pair in it: from.iter()
        invariant
            it.seq() == from.iter().remaining(),
            start == old(into)@,
            forall|a: u16|
                #![trigger into@.contains_key(a)]
                into@.contains_key(a) ==> if from@.contains_key(a) {
                    into@[a] == from@[a] || (start.contains_key(a) && into@[a] == start[a])
                } else {
                    start.contains_key(a) && into@[a] == start[a]
                },
            forall|a: u16| #![trigger start.contains_key(a)] start.contains_key(a) ==> into@.contains_key(a),
            forall|j: int|
                #![trigger it.seq()[j]]
                0 <= j < it.index() ==> into@.contains_key(*it.seq()[j].0) && into@[*it.seq()[j].0]
                    == from@[*it.seq()[j].0],
    {
        let (address, word) = pair;
        let ghost before = into@;
        proof {
            let items = from.iter().remaining();
            let j = it.index();
            assert(items[j] == pair);
            assert(from@.contains_key(*items[j].0) && from@[*items[j].0] == *items[j].1);
        }
        into.insert(*address, *word);
        assert forall|a: u16| #![trigger into@.contains_key(a)] into@.contains_key(a) implies if from@.contains_key(
            a,
        ) {
            into@[a] == from@[a] || (start.contains_key(a) && into@[a] == start[a])
        } else {
            start.contains_key(a) && into@[a] == start[a]
        } by {
            if a != *address {
                assert(before.contains_key(a));
            }
        }
        assert forall|a: u16| #![trigger start.contains_key(a)] start.contains_key(a) implies into@.contains_key(
            a,
        ) by {
            assert(before.contains_key(a));
        }
    }
    proof {
        let items = from.iter().remaining();
        assert forall|a: u16| from@.contains_key(a) implies into@.contains_key(a) && into@[a]
            == from@[a] by {
            assert(items.contains((&a, &from@[a])));
            let j = choose|j: int| 0 <= j < items.len() && items[j] == (&a, &from@[a]);
            assert(*items[j].0 == a);
        }
        assert(into@ =~= start.union_prefer_right(from@));
    }
}

impl RegisterManager {
    /// The store that a register document describes: each register in the
    /// table of the class that its address lies in, and the keys of the
    /// document.
    pub fn from_json(json: JsonDocument) -> (out: Result<Self, JsonError>)
        ensures
            match json@ {
                Some(entries) => match parsed_registers(entries) {
                    Some(registers) => out matches Ok(store) && store.wf() && store.bits_clean()
                        && store.keys() == keys_of(entries) && store.registers() == registers
                        && (forall|class: RegisterType| #[trigger]
                        store.table(class) == class_part(registers, class)),
                    None => out matches Err(JsonError::Invalid(_)),
                },
                None => out matches Err(JsonError::Invalid(_)),
            },
    {
        let (registers, keys) = match parse(json) {
            Ok(read) => read,
            Err(error) => {
                return Err(error);
            },
        };
        let coils = select(&registers, RegisterType::Coils);
        let inputs = select(&registers, RegisterType::Inputs);
        let input_registers = select(&registers, RegisterType::InputRegisters);
        let holding_registers = select(&registers, RegisterType::HoldingRegisters);
        proof {
            let entries = json@->0;
            lemma_parsed_schema(entries);
            assert forall|x: u16| #[trigger] registers@.contains_key(x) implies is_bit_address(x)
                || is_word_address(x) by {
                lemma_parsed_bits(entries, x);
            }
            assert forall|x: u16| #[trigger] coils@.contains_key(x) implies coils@[x] <= 1 by {
                lemma_parsed_bits(entries, x);
            }
            assert forall|x: u16| #[trigger] inputs@.contains_key(x) implies inputs@[x] <= 1 by {
                lemma_parsed_bits(entries, x);
            }
            lemma_parts_join(registers@);
        }
        Ok(RegisterManager { coils, inputs, input_registers, holding_registers, keys })
    }

    /// A copy of the store for writing it down: all registers in one map, and
    /// the keys.
    pub fn snapshot(&self) -> (out: (Register, Vec<String>))
        ensures
            out.0@ == self.registers(),
            texts_of(out.1@) == self.keys(),
    {
        let mut registers: Register = HashMap::new();
        merge(&mut registers, &self.coils);
        merge(&mut registers, &self.inputs);
        merge(&mut registers, &self.input_registers);
        merge(&mut registers, &self.holding_registers);
        assert(registers@ =~= self.registers());
        let mut keys: Vec<String> = Vec::new();
        let mut i: usize = 0;
        while i < self.keys.len()
            invariant
                i <= self.keys.len(),
                keys@.len() == i,
                forall|k: int| 0 <= k < i ==> (#[trigger] keys@[k])@ == self.keys@[k]@,
            decreases self.keys.len() - i,
        {
            keys.push(self.keys[i].clone());
            i = i + 1;
        }
        assert(texts_of(keys@) =~= self.keys());
        (registers, keys)
    }

    /// The document of the store as it stands: its registers under its keys.
    /// Every store has one. Where every coil and discrete input is 0 or 1, it
    /// describes the registers of the store again.
    pub fn document(&self) -> (out: Result<JsonDocument, JsonError>)
        ensures
            serialized(self.registers(), self.keys()) is Ok,
            out matches Ok(document) && document@ == Some(
                serialized(self.registers(), self.keys())->Ok_0,
            ),
            all_writable(serialized(self.registers(), self.keys())->Ok_0),
            self.bits_clean() ==> parsed_registers(
                serialized(self.registers(), self.keys())->Ok_0,
            ) == Some(self.registers()) && keys_of(serialized(self.registers(), self.keys())->Ok_0)
                == self.keys(),
    {
        proof {
            use_type_invariant(self);
            lemma_schema_serialized(self.keys(), self.registers());
            lemma_serialized_writable(self.registers(), self.keys());
            if self.bits_clean() {
                lemma_document_reads_back(*self);
            }
        }
        let (registers, keys) = self.snapshot();
        registers_to_object(&registers, keys)
    }

    /// The text to write down for the store as it stands: its document, pretty
    /// printed, and checked to read as that document again. It fails only
    /// where the text cannot be made or does not read so.
    pub fn update_persistence(&self) -> (out: Result<String, JsonError>)
        ensures
            serialized(self.registers(), self.keys()) is Ok,
            out matches Ok(text) ==> text_document(text@) == Some(
                Some(serialized(self.registers(), self.keys())->Ok_0),
            ) && pretty_text(serialized(self.registers(), self.keys())->Ok_0) == Some(text@),
            out is Ok <==> (pretty_text(serialized(self.registers(), self.keys())->Ok_0) matches Some(
                text,
            ) && text_document(text) == Some(
                Some(serialized(self.registers(), self.keys())->Ok_0),
            )),
            out matches Err(error) ==> error is Other,
    {
        let document = match self.document() {
            Ok(document) => document,
            Err(_) => {
                return Err(JsonError::Other("the store has no document".to_string()));
            },
        };
        let text = match encode(&document) {
            Ok(text) => text,
            Err(error) => {
                return Err(error);
            },
        };
        match decode(text.as_str()) {
            Ok(read) => if same_document(&read, &document) {
                Ok(text)
            } else {
                Err(JsonError::Other("the written document reads otherwise".to_string()))
            },
            Err(error) => Err(error),
        }
    }

    /// The store to start with, given what loading the document gave: the
    /// store of the document; an empty store where there is no file; the error
    /// where the file could not be read or is no register document.
    pub fn from_loaded(loaded: Result<JsonDocument, JsonError>) -> (out: Result<Self, JsonError>)
        ensures
            out matches Ok(store) ==> store.wf() && store.bits_clean(),
            match loaded {
                Ok(document) => match document@ {
                    Some(entries) => match parsed_registers(entries) {
                        Some(registers) => out matches Ok(store) && store.keys() == keys_of(entries)
                            && (forall|class: RegisterType| #[trigger]
                            store.table(class) == class_part(registers, class)),
                        None => out matches Err(JsonError::Invalid(_)),
                    },
                    None => out matches Err(JsonError::Invalid(_)),
                },
                Err(JsonError::NoFile) => out matches Ok(store) && store.keys() == Seq::<
                    Seq<char>,
                >::empty() && store.registers() == Map::<u16, u16>::empty(),
                Err(error) => out matches Err(same) && same == error,
            },
    {
        match loaded {
            Ok(document) => Self::from_json(document),
            Err(JsonError::NoFile) => {
                let store = Self::new();
                assert(store.registers() =~= Map::<u16, u16>::empty());
                Ok(store)
            },
            Err(error) => Err(error),
        }
    }
}

impl Default for RegisterManager {
    fn default() -> (out: Self)
        ensures
            out.wf(),
            out.bits_clean(),
            out.keys() == Seq::<Seq<char>>::empty(),
            forall|class: RegisterType| #[trigger] out.table(class) == Map::<u16, u16>::empty(),
    {
        RegisterManager::new()
    }
}

/// Bounds on write: a write to an address that the table does not hold is
/// refused and leaves the table as it was.
pub proof fn lemma_write_absent(table: Map<u16, u16>, address: u16, values: Seq<u16>)
    requires
        values.len() > 0,
        !table.contains_key(address),
    ensures
        !write_fits(table, address, values.len()),
        written_table(table, address, values) == table,
{
    assert(present_run(table, address as int, values.len()) == 0);
    assert(values.take(0) =~= Seq::<u16>::empty());
}

/// Bounds on read: a read is refused where the table does not hold one of the
/// addresses of its span, and is served where it holds them all and the first
/// lies in the range of the class.
pub proof fn lemma_read_bounds(table: Map<u16, u16>, class: RegisterType, address: u16, count: u16)
    ensures
        (exists|k: int|
            0 <= k < count && (address + k > 0xFFFF || !table.contains_key(
                #[trigger] ((address + k) as u16),
            ))) ==> read_outcome(table, class, address, count) == Err::<Seq<u16>, RegisterError>(
            RegisterError::OutOfBounds,
        ),
        !class.holds(address) ==> read_outcome(table, class, address, count) == Err::<
            Seq<u16>,
            RegisterError,
        >(RegisterError::OutOfBounds),
        class.holds(address) && address + count <= 0x1_0000 && (forall|k: int|
            0 <= k < count ==> table.contains_key(#[trigger] ((address + k) as u16)))
            ==> read_outcome(table, class, address, count) == Ok::<Seq<u16>, RegisterError>(
            read_words(table, address, count as nat),
        ),
{
    lemma_present_run(table, address as int, count as nat);
    if class.holds(address) && address + count <= 0x1_0000 && (forall|k: int|
        0 <= k < count ==> table.contains_key(#[trigger] ((address + k) as u16))) {
        lemma_present_run_is(table, address as int, count as nat, count as nat);
    }
}

/// The registers of a store at the addresses of a class are its table of
/// that class.
pub proof fn lemma_join_parts(store: RegisterManager)
    requires
        store.in_class(),
    ensures
        forall|class: RegisterType| #[trigger]
            class_part(store.registers(), class) == store.table(class),
{
    assert forall|class: RegisterType| #[trigger]
        class_part(store.registers(), class) == store.table(class) by {
        assert forall|x: u16| #[trigger]
            class_part(store.registers(), class).contains_key(x) <==> store.table(
                class,
            ).contains_key(x) by {
            assert(store.table(RegisterType::Coils).contains_key(x) ==> RegisterType::Coils.holds(x));
            assert(store.table(RegisterType::Inputs).contains_key(x) ==> RegisterType::Inputs.holds(
                x,
            ));
            assert(store.table(RegisterType::InputRegisters).contains_key(x)
                ==> RegisterType::InputRegisters.holds(x));
            assert(store.table(RegisterType::HoldingRegisters).contains_key(x)
                ==> RegisterType::HoldingRegisters.holds(x));
        }
        assert(class_part(store.registers(), class) =~= store.table(class));
    }
}

/// Reading the written document again: the document of a store whose coils
/// and discrete inputs are 0 or 1 describes the registers of the store under
/// its keys, so the store made from it has the same tables and the same keys.
pub proof fn lemma_document_reads_back(store: RegisterManager)
    requires
        store.wf(),
        store.bits_clean(),
    ensures
        serialized(store.registers(), store.keys()) is Ok,
        parsed_registers(serialized(store.registers(), store.keys())->Ok_0) == Some(
            store.registers(),
        ),
        keys_of(serialized(store.registers(), store.keys())->Ok_0) == store.keys(),
        forall|class: RegisterType| #[trigger]
            class_part(store.registers(), class) == store.table(class),
{
    lemma_join_parts(store);
    let registers = store.registers();
    assert forall|x: u16| is_bit_address(x) && #[trigger] registers.contains_key(x)
        implies registers[x] <= 1 by {
        assert(class_part(registers, RegisterType::Coils) == store.table(RegisterType::Coils));
        assert(class_part(registers, RegisterType::Inputs) == store.table(RegisterType::Inputs));
        if RegisterType::Coils.holds(x) {
            assert(store.table(RegisterType::Coils).contains_key(x));
        } else {
            assert(RegisterType::Inputs.holds(x));
            assert(store.table(RegisterType::Inputs).contains_key(x));
        }
    }
    lemma_written_reads_back(store.keys(), registers);
}

/// Persistence idempotence: the store made from a document of integers,
/// written down under its keys, gives the document again.
pub proof fn lemma_persistence_idempotent(entries: Seq<Entry>, store: RegisterManager)
    requires
        parsed_registers(entries) is Some,
        all_integers(entries),
        forall|class: RegisterType| #[trigger]
            store.table(class) == class_part(parsed_registers(entries)->0, class),
        store.keys() == keys_of(entries),
    ensures
        store.registers() == parsed_registers(entries)->0,
        serialized(store.registers(), store.keys()) == Ok::<Seq<Entry>, Fault>(entries),
{
    let parsed = parsed_registers(entries)->0;
    assert forall|x: u16| #[trigger] parsed.contains_key(x) implies is_bit_address(x)
        || is_word_address(x) by {
        lemma_parsed_bits(entries, x);
    }
    lemma_parts_join(parsed);
    assert(store.table(RegisterType::Coils) == class_part(parsed, RegisterType::Coils));
    assert(store.table(RegisterType::Inputs) == class_part(parsed, RegisterType::Inputs));
    assert(store.table(RegisterType::InputRegisters) == class_part(
        parsed,
        RegisterType::InputRegisters,
    ));
    assert(store.table(RegisterType::HoldingRegisters) == class_part(
        parsed,
        RegisterType::HoldingRegisters,
    ));
    lemma_parsed_domain(entries);
    lemma_serialized_parsed(entries, parsed);
}

/// Every address of the span of a key of a store lies in the range of the
/// class of its first address, and the table of that class holds it.
pub proof fn lemma_key_span_held(store: RegisterManager, i: int, x: u16)
    requires
        store.wf(),
        0 <= i < store.keys().len(),
        key_covers(store.keys()[i], x),
    ensures
        exists|class: RegisterType|
            #![trigger store.table(class)]
            class.holds(key_format(store.keys()[i])->0.address) && class.holds(x) && store.table(
                class,
            ).contains_key(x),
{
    lemma_join_parts(store);
    let key = store.keys()[i];
    assert(key_fits(key));
    let format = key_format(key)->0;
    assert(store.registers().dom().contains(x));
    let class = if RegisterType::Coils.holds(format.address) {
        RegisterType::Coils
    } else if RegisterType::Inputs.holds(format.address) {
        RegisterType::Inputs
    } else if RegisterType::InputRegisters.holds(format.address) {
        RegisterType::InputRegisters
    } else {
        RegisterType::HoldingRegisters
    };
    assert(class.holds(format.address) && class.holds(x));
    assert(class_part(store.registers(), class) == store.table(class));
    assert(class_part(store.registers(), class).contains_key(x));
}

/// A write keeps the addresses of a table, and every word of the table
/// after it is the word before it or one of the values written.
pub proof fn lemma_written_words(table: Map<u16, u16>, address: u16, values: Seq<u16>)
    ensures
        written_table(table, address, values).dom() == table.dom(),
        forall|x: u16| #[trigger]
            written_table(table, address, values).contains_key(x) ==> written_table(
                table,
                address,
                values,
            )[x] == table[x] || values.contains(written_table(table, address, values)[x]),
{
    let run = present_run(table, address as int, values.len());
    lemma_present_run(table, address as int, values.len());
    let written = values.take(run as int);
    lemma_store_words(table, address, written);
    let after = written_table(table, address, values);
    assert forall|x: u16| #[trigger] after.contains_key(x) <==> table.contains_key(x) by {
        if address <= x < address + run {
            assert(table.contains_key((address + (x - address)) as u16));
        }
    }
    assert(after.dom() =~= table.dom());
    assert forall|x: u16| #[trigger] after.contains_key(x) implies after[x] == table[x]
        || values.contains(after[x]) by {
        if address <= x < address + run {
            assert(after[x] == written[x - address]);
            assert(values[x - address] == after[x]);
        }
    }
}

/// The text written for a store that was made from the document of a text
/// of integers denotes the document that the loaded text denotes.
pub proof fn lemma_persisted_as_loaded(
    loaded: Seq<char>,
    entries: Seq<Entry>,
    store: RegisterManager,
    written: Seq<char>,
)
    requires
        text_document(loaded) == Some(Some(entries)),
        parsed_registers(entries) is Some,
        all_integers(entries),
        forall|class: RegisterType| #[trigger]
            store.table(class) == class_part(parsed_registers(entries)->0, class),
        store.keys() == keys_of(entries),
        text_document(written) == Some(Some(serialized(store.registers(), store.keys())->Ok_0)),
    ensures
        text_document(written) == text_document(loaded),
{
    lemma_persistence_idempotent(entries, store);
}

/// The text written for a store whose coils and discrete inputs are 0 or 1
/// denotes a document that describes the registers of the store under its
/// keys: the store made from it has the same tables and the same keys.
pub proof fn lemma_persisted_reads_back(store: RegisterManager, written: Seq<char>)
    requires
        store.wf(),
        store.bits_clean(),
        text_document(written) == Some(Some(serialized(store.registers(), store.keys())->Ok_0)),
    ensures
        text_document(written) matches Some(Some(entries)) && parsed_registers(entries) == Some(
            store.registers(),
        ) && keys_of(entries) == store.keys(),
        forall|class: RegisterType| #[trigger]
            class_part(store.registers(), class) == store.table(class),
{
    lemma_document_reads_back(store);
}

} // verus!

//! Address-to-word maps: the spans of consecutive addresses that a register
//! table holds, reads and writes.

use vstd::prelude::*;

verus! {

/// Whether `registers` hold none of the `count` addresses from `address` on.
pub open spec fn span_free(registers: Map<u16, u16>, address: u16, count: nat) -> bool {
    forall|i: int| 0 <= i < count ==> !registers.contains_key(#[trigger] ((address + i) as u16))
}

/// `registers` after `words` were written to the addresses from `address` on.
pub open spec fn store_words(registers: Map<u16, u16>, address: u16, words: Seq<u16>) -> Map<
    u16,
    u16,
>
    decreases words.len(),
{
    if words.len() == 0 {
        registers
    } else {
        store_words(registers, address, words.drop_last()).insert(
            (address + words.len() - 1) as u16,
            words.last(),
        )
    }
}

/// Writing words touches the addresses of their span and no others.
pub proof fn lemma_store_words(registers: Map<u16, u16>, address: u16, words: Seq<u16>)
    requires
        address + words.len() <= 0x1_0000,
    ensures
        forall|a: u16|
            #![trigger store_words(registers, address, words).contains_key(a)]
            store_words(registers, address, words).contains_key(a) <==> registers.contains_key(a)
                || address <= a < address + words.len(),
        forall|a: u16|
            #![trigger store_words(registers, address, words)[a]]
            address <= a < address + words.len() ==> store_words(registers, address, words)[a]
                == words[a - address],
        forall|a: u16|
            #![trigger store_words(registers, address, words)[a]]
            !(address <= a < address + words.len()) ==> store_words(registers, address, words)[a]
                == registers[a],
    decreases words.len(),
{
    if words.len() > 0 {
        let shorter = words.drop_last();
        let last = (address + words.len() - 1) as u16;
        let before = store_words(registers, address, shorter);
        let after = store_words(registers, address, words);
        lemma_store_words(registers, address, shorter);
        assert(after == before.insert(last, words.last()));
        assert forall|a: u16| #![trigger after.contains_key(a)] after.contains_key(a)
            <==> registers.contains_key(a) || address <= a < address + words.len() by {
            assert(before.contains_key(a) <==> registers.contains_key(a) || address <= a < address
                + shorter.len());
        }
        assert forall|a: u16| #![trigger after[a]] address <= a < address + words.len()
            implies after[a] == words[a - address] by {
            if a != last {
                assert(before[a] == shorter[a - address]);
            }
        }
        assert forall|a: u16| #![trigger after[a]] !(address <= a < address + words.len())
            implies after[a] == registers[a] by {
            assert(before[a] == registers[a]);
        }
    }
}

/// Whether `registers` hold each of the `count` addresses from `address` on.
pub open spec fn span_present(registers: Map<u16, u16>, address: u16, count: nat) -> bool {
    &&& address + count <= 0x1_0000
    &&& forall|i: int| 0 <= i < count ==> registers.contains_key(#[trigger] ((address + i) as u16))
}

/// The `count` words that `registers` hold from `address` on.
pub open spec fn read_words(registers: Map<u16, u16>, address: u16, count: nat) -> Seq<u16> {
    Seq::new(count, |i: int| registers[(address + i) as u16])
}

/// How many of the `count` addresses from `address` on `registers` hold
/// before the first one that is missing.
pub open spec fn present_run(registers: Map<u16, u16>, address: int, count: nat) -> nat
    decreases count,
{
    if count == 0 {
        0
    } else if 0 <= address <= 0xFFFF && registers.contains_key(address as u16) {
        1 + present_run(registers, address + 1, (count - 1) as nat)
    } else {
        0
    }
}

/// The run of present addresses is no longer than the span, every address in
/// it is present, and the one after it, inside the span, is missing.
pub proof fn lemma_present_run(registers: Map<u16, u16>, address: int, count: nat)
    requires
        0 <= address <= 0x1_0000,
    ensures
        present_run(registers, address, count) <= count,
        address + present_run(registers, address, count) <= 0x1_0000,
        forall|i: int|
            0 <= i < present_run(registers, address, count) ==> registers.contains_key(
                #[trigger] ((address + i) as u16),
            ),
        present_run(registers, address, count) < count ==> address + present_run(
            registers,
            address,
            count,
        ) > 0xFFFF || !registers.contains_key(
            (address + present_run(registers, address, count)) as u16,
        ),
    decreases count,
{
    if count > 0 && address <= 0xFFFF && registers.contains_key(address as u16) {
        lemma_present_run(registers, address + 1, (count - 1) as nat);
        let rest = present_run(registers, address + 1, (count - 1) as nat);
        assert forall|i: int| 0 <= i < 1 + rest implies registers.contains_key(
            #[trigger] ((address + i) as u16),
        ) by {
            if i > 0 {
                assert(registers.contains_key(((address + 1) + (i - 1)) as u16));
            }
        }
    }
}

/// A run that is known to reach `n` addresses, and to stop there, is `n` long.
pub proof fn lemma_present_run_is(registers: Map<u16, u16>, address: int, count: nat, n: nat)
    requires
        0 <= address,
        n <= count,
        address + n <= 0x1_0000,
        forall|i: int| 0 <= i < n ==> registers.contains_key(#[trigger] ((address + i) as u16)),
        n < count ==> address + n > 0xFFFF || !registers.contains_key((address + n) as u16),
    ensures
        present_run(registers, address, count) == n,
    decreases count,
{
    if count > 0 {
        if n == 0 {
        } else {
            assert(registers.contains_key((address + 0) as u16));
            assert forall|i: int| 0 <= i < n - 1 implies registers.contains_key(
                #[trigger] ((address + 1 + i) as u16),
            ) by {
                assert(registers.contains_key((address + (i + 1)) as u16));
            }
            lemma_present_run_is(registers, address + 1, (count - 1) as nat, (n - 1) as nat);
        }
    }
}

} // verus!

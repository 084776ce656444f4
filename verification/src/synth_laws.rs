//! What a synthetic state is made of, draw by draw.

use crate::bytes::{
    be_bytes, be_value, le_bytes, lemma_be_bytes_len, lemma_value_of_bytes, pow256,
};
use crate::memory::slots_in;
use crate::primitives::{lemma_word, lemma_word_of_bytes, number_of, word_of, Account, B256, U256};
use crate::synth::{
    after, draw, draw_bytes, lemma_after, mixed, small_sizes, stepped, synthesized, with_contract,
    with_contract_account, with_contracts, with_eoa, with_eoas, with_slot, with_slots, Filled,
    SynthConfig,
};
use vstd::prelude::*;

verus! {

/// The generator is SplitMix64: a step adds the golden ratio to the state, modulo 2^64, and a word
/// is the new state after two rounds of shifting and multiplying, modulo 2^64, and a last shift.
pub proof fn lemma_generator_is_splitmix(state: u64, a: u64, b: u64)
    requires
        a == ((state ^ (state >> 30)) * 0xBF58_476D_1CE4_E5B9) % 0x1_0000_0000_0000_0000,
        b == ((a ^ (a >> 27)) * 0x94D0_49BB_1331_11EB) % 0x1_0000_0000_0000_0000,
    ensures
        stepped(state) == (state + 0x9E37_79B9_7F4A_7C15) % 0x1_0000_0000_0000_0000,
        mixed(state) == b ^ (b >> 31),
{
}

/// The words of a generator are those of its states one after the other, and a generator that goes
/// on gives the words that follow.
pub proof fn lemma_words_follow_each_other(state: u64, n: nat, m: nat)
    ensures
        after(state, 0) == state,
        after(state, n + 1) == stepped(after(state, n)),
        draw(state, n + 1) == mixed(stepped(after(state, n))),
        draw(after(state, n), m) == draw(state, n + m),
{
    lemma_after(state, n, m);
}

/// 32 drawn bytes are the next four words, each with its lowest byte first.
pub proof fn lemma_bytes_are_four_words(state: u64, k: int)
    requires
        0 <= k < 4,
    ensures
        draw_bytes(state).len() == 32,
        be_value(draw_bytes(state).subrange(8 * k, 8 * k + 8).reverse()) == draw(
            state,
            (k + 1) as nat,
        ),
{
    let word = draw(state, (k + 1) as nat) as nat;
    lemma_be_bytes_len(draw(state, 1) as nat, 8);
    lemma_be_bytes_len(draw(state, 2) as nat, 8);
    lemma_be_bytes_len(draw(state, 3) as nat, 8);
    lemma_be_bytes_len(draw(state, 4) as nat, 8);
    assert(draw_bytes(state).subrange(8 * k, 8 * k + 8) =~= le_bytes(word, 8));
    assert(le_bytes(word, 8).reverse() =~= be_bytes(word, 8));
    assert(pow256(8) == 0x1_0000_0000_0000_0000) by {
        reveal_with_fuel(pow256, 9);
    }
    lemma_value_of_bytes(word, 8);
}

/// There is a number with any value below 2^256.
proof fn lemma_number_with_value(v: nat)
    requires
        v <= 0xffff_ffff_ffff_ffff,
    ensures
        number_of(v).value() == v,
{
    let b = be_bytes(v, 32);
    lemma_be_bytes_len(v, 32);
    assert(pow256(32) > 0xffff_ffff_ffff_ffff) by {
        reveal_with_fuel(pow256, 33);
    }
    lemma_value_of_bytes(v, 32);
    lemma_word_of_bytes(b);
    let x = U256(word_of(b).0);
    assert(x.bytes() == b);
    assert(x.value() == v);
}

/// One more externally owned account has the drawn address, the next word modulo 50 as nonce, the
/// word after as balance, and no code; all other accounts and all slots stay as they are, and six
/// words are used up.
pub proof fn lemma_owned_account_is_drawn(s: Filled, address: B256)
    requires
        address.0@ == draw_bytes(s.rng),
    ensures
        ({
            let t = with_eoa(s);
            &&& t.accounts.contains_key(address)
            &&& t.accounts[address].nonce == draw(s.rng, 5) % 50
            &&& t.accounts[address].balance.value() == draw(s.rng, 6)
            &&& t.accounts[address].bytecode_hash is None
            &&& t.accounts.remove(address) == s.accounts.remove(address)
            &&& t.storages == s.storages
            &&& t.rng == after(s.rng, 6)
        }),
{
    lemma_word(address);
    lemma_number_with_value(draw(s.rng, 6) as nat);
    assert(with_eoa(s).accounts.remove(address) =~= s.accounts.remove(address));
}

/// The account of one more contract has the drawn address, nonce 1, the next word modulo a million
/// as balance, and the drawn code hash; all other accounts and all slots stay as they are, and nine
/// words are used up.
pub proof fn lemma_contract_account_is_drawn(s: Filled, address: B256, code: B256)
    requires
        address.0@ == draw_bytes(s.rng),
        code.0@ == draw_bytes(after(s.rng, 5)),
    ensures
        ({
            let t = with_contract_account(s);
            &&& t.accounts.contains_key(address)
            &&& t.accounts[address].nonce == 1
            &&& t.accounts[address].balance.value() == draw(s.rng, 5) % 1_000_000
            &&& t.accounts[address].bytecode_hash == Some(code)
            &&& t.accounts.remove(address) == s.accounts.remove(address)
            &&& t.storages == s.storages
            &&& t.rng == after(s.rng, 9)
        }),
{
    lemma_word(address);
    lemma_word(code);
    lemma_number_with_value((draw(s.rng, 5) as int % 1_000_000) as nat);
    assert(with_contract_account(s).accounts.remove(address) =~= s.accounts.remove(address));
}

/// One more slot of an address has the drawn key and a drawn value from 1 to 2^32 - 1; all other
/// slots and all accounts stay as they are, and five words are used up.
pub proof fn lemma_slot_is_drawn(s: Filled, address: B256, slot: B256, other: B256)
    requires
        slot.0@ == draw_bytes(after(s.rng, 1)),
    ensures
        ({
            let t = with_slot(s, address);
            &&& slots_in(t.storages, address).contains_key(slot)
            &&& slots_in(t.storages, address)[slot].value() == 1 + draw(s.rng, 1) % 0xffff_ffff
            &&& 1 <= slots_in(t.storages, address)[slot].value() <= 0xffff_ffff
            &&& slots_in(t.storages, address).remove(slot) == slots_in(s.storages, address).remove(
                slot,
            )
            &&& other != address ==> slots_in(t.storages, other) == slots_in(s.storages, other)
            &&& t.storages.dom() == s.storages.dom().insert(address)
            &&& t.accounts == s.accounts
            &&& t.rng == after(s.rng, 5)
        }),
{
    lemma_word(slot);
    lemma_number_with_value((1 + draw(s.rng, 1) as int % 0xffff_ffff) as nat);
    assert(slots_in(with_slot(s, address).storages, address).remove(slot) =~= slots_in(
        s.storages,
        address,
    ).remove(slot));
    assert(with_slot(s, address).storages.dom() =~= s.storages.dom().insert(address));
}

/// Accounts, slots and contracts are added one after the other, and a contract is its account and
/// then its slots, as many as its size.
pub proof fn lemma_added_one_after_the_other(
    s: Filled,
    n: nat,
    address: B256,
    sizes: Seq<usize>,
    size: usize,
)
    ensures
        with_eoas(s, 0) == s,
        with_eoas(s, n + 1) == with_eoa(with_eoas(s, n)),
        with_slots(s, address, 0) == s,
        with_slots(s, address, n + 1) == with_slot(with_slots(s, address, n), address),
        with_contracts(s, Seq::empty()) == s,
        with_contracts(s, sizes.push(size)) == with_contract(with_contracts(s, sizes), size),
        address.0@ == draw_bytes(s.rng) ==> with_contract(s, size) == with_slots(
            with_contract_account(s),
            address,
            size as nat,
        ),
{
    assert(sizes.push(size).drop_last() =~= sizes);
    lemma_word(address);
}

/// The sizes of the small contracts are drawn one word each, from 1 to the largest allowed.
pub proof fn lemma_small_sizes_are_drawn(rng: u64, n: nat, max: usize, i: int)
    requires
        max > 0,
        0 <= i < n,
    ensures
        small_sizes(rng, n, max).len() == n,
        small_sizes(rng, n, max)[i] == 1 + draw(rng, (i + 1) as nat) as int % max as int,
        1 <= small_sizes(rng, n, max)[i] <= max,
{
}

/// A synthetic state starts empty with the seed; the externally owned accounts come first; then the
/// sizes of the small contracts are drawn, one word each; then come the small contracts and after
/// them the large ones, in their order.
pub proof fn lemma_state_is_filled_in_turn(config: SynthConfig, empty: Filled, owned: Filled)
    requires
        empty.rng == config.seed,
        empty.accounts == Map::<B256, Account>::empty(),
        empty.storages == Map::<B256, Map<B256, U256>>::empty(),
        owned == with_eoas(empty, config.eoas as nat),
    ensures
        ({
            let n = config.small_contracts as nat;
            let sized = Filled {
                rng: after(owned.rng, n),
                accounts: owned.accounts,
                storages: owned.storages,
            };
            &&& config.large_contracts@.len() == 0 ==> synthesized(config) == with_contracts(
                sized,
                small_sizes(owned.rng, n, config.small_slots_max),
            )
            &&& synthesized(config) == with_contracts(
                sized,
                small_sizes(owned.rng, n, config.small_slots_max) + config.large_contracts@,
            )
        }),
{
    let n = config.small_contracts as nat;
    let small = small_sizes(owned.rng, n, config.small_slots_max);
    assert(empty == (Filled { rng: config.seed, accounts: Map::empty(), storages: Map::empty() }));
    if config.large_contracts@.len() == 0 {
        assert(small + config.large_contracts@ =~= small);
    }
}

} // verus!

//! Deterministic synthetic hashed state with a mainnet-like shape.

use crate::bytes::{be_bytes, le_bytes};
use crate::memory::{slots_in, MemoryState};
use crate::primitives::{lemma_number, lemma_word, number_of, word_of, Account, B256, U256};
use vstd::prelude::*;

verus! {

/// Shape of a synthetic state.
#[derive(Clone, Debug)]
pub struct SynthConfig {
    /// Seed for the generator; equal seeds give equal states.
    pub seed: u64,
    /// Externally owned accounts (no code, no storage).
    pub eoas: usize,
    /// Contracts with a small random number of slots in `1..=small_slots_max`.
    pub small_contracts: usize,
    /// Upper bound on slots for small contracts.
    pub small_slots_max: usize,
    /// Slot counts of individually specified large contracts.
    pub large_contracts: Vec<usize>,
}

impl Default for SynthConfig {
    fn default() -> (r: SynthConfig)
        ensures
            r.seed == 1,
            r.eoas == 2_000,
            r.small_contracts == 200,
            r.small_slots_max == 16,
            r.large_contracts@ == seq![5_000usize],
    {
        SynthConfig {
            seed: 1,
            eoas: 2_000,
            small_contracts: 200,
            small_slots_max: 16,
            large_contracts: vec![5_000],
        }
    }
}

/// The state of the generator after one step.
pub open spec fn stepped(state: u64) -> u64 {
    state.wrapping_add(0x9E37_79B9_7F4A_7C15)
}

/// The bits that the generator gives in a state.
pub open spec fn mixed(state: u64) -> u64 {
    let a = (state ^ (state >> 30)).wrapping_mul(0xBF58_476D_1CE4_E5B9);
    let b = (a ^ (a >> 27)).wrapping_mul(0x94D0_49BB_1331_11EB);
    b ^ (b >> 31)
}

/// The state of the generator after `n` steps.
pub open spec fn after(state: u64, n: nat) -> u64
    decreases n,
{
    if n == 0 {
        state
    } else {
        stepped(after(state, (n - 1) as nat))
    }
}

/// The `n`th word from a state on, counted from 1.
pub open spec fn draw(state: u64, n: nat) -> u64 {
    mixed(after(state, n))
}

/// The bytes of the next four words, each little-endian.
pub open spec fn draw_bytes(state: u64) -> Seq<u8> {
    le_bytes(draw(state, 1) as nat, 8) + le_bytes(draw(state, 2) as nat, 8) + le_bytes(
        draw(state, 3) as nat,
        8,
    ) + le_bytes(draw(state, 4) as nat, 8)
}

/// The little-endian bytes of a word.
fn to_le_bytes(word: u64) -> (r: Vec<u8>)
    ensures
        r@ == le_bytes(word as nat, 8),
        r@.len() == 8,
{
    let mut out: Vec<u8> = Vec::new();
    let mut rest: u64 = word;
    let mut i: usize = 0;
    assert(out@ + le_bytes(word as nat, 8) =~= le_bytes(word as nat, 8));
    while i < 8
        invariant
            i <= 8,
            out@.len() == i,
            le_bytes(word as nat, 8) == out@ + le_bytes(rest as nat, (8 - i) as nat),
        decreases 8 - i,
    {
        let low: u8 = (rest % 256) as u8;
        let ghost n = (8 - i) as nat;
        let ghost v = rest as nat;
        proof {
            assert(le_bytes(v, n) =~= seq![low] + le_bytes(v / 256, (n - 1) as nat)) by {
                let high = be_bytes(v / 256, (n - 1) as nat);
                assert(be_bytes(v, n) == high.push(low));
                assert(high.push(low).reverse() =~= seq![low] + high.reverse());
            }
        }
        let ghost before = out@;
        out.push(low);
        rest = rest / 256;
        proof {
            assert(before + (seq![low] + le_bytes(rest as nat, (n - 1) as nat)) =~= out@
                + le_bytes(rest as nat, (n - 1) as nat));
        }
        i = i + 1;
    }
    assert(le_bytes(rest as nat, 0) =~= Seq::empty());
    assert(out@ + le_bytes(rest as nat, 0) =~= out@);
    out
}

/// SplitMix64: tiny, deterministic, good enough for test data.
#[derive(Debug)]
pub struct Rng(u64);

impl Clone for Rng {
    fn clone(&self) -> (r: Rng)
        ensures
            r@ == self@,
    {
        Rng(self.0)
    }
}

impl View for Rng {
    type V = u64;

    closed spec fn view(&self) -> u64 {
        self.0
    }
}

impl Rng {
    /// Creates a generator from a seed.
    pub fn new(seed: u64) -> (r: Rng)
        ensures
            r@ == seed,
    {
        Rng(seed)
    }

    /// Next 64 random bits.
    pub fn next_u64(&mut self) -> (r: u64)
        ensures
            final(self)@ == after(old(self)@, 1),
            r == draw(old(self)@, 1),
    {
        proof {
            reveal_with_fuel(after, 2);
        }
        self.0 = self.0.wrapping_add(0x9E37_79B9_7F4A_7C15);
        let mut z: u64 = self.0;
        z = (z ^ (z >> 30)).wrapping_mul(0xBF58_476D_1CE4_E5B9);
        z = (z ^ (z >> 27)).wrapping_mul(0x94D0_49BB_1331_11EB);
        z ^ (z >> 31)
    }

    /// Uniform 32 random bytes, standing in for a keccak output.
    pub fn next_b256(&mut self) -> (r: B256)
        ensures
            final(self)@ == after(old(self)@, 4),
            r.bytes() == draw_bytes(old(self)@),
    {
        proof {
            reveal_with_fuel(after, 5);
        }
        let mut out: Vec<u8> = Vec::new();
        let mut a = to_le_bytes(self.next_u64());
        let mut b = to_le_bytes(self.next_u64());
        let mut c = to_le_bytes(self.next_u64());
        let mut d = to_le_bytes(self.next_u64());
        out.append(&mut a);
        out.append(&mut b);
        out.append(&mut c);
        out.append(&mut d);
        assert(out@ =~= draw_bytes(old(self)@));
        B256::from_slice(out.as_slice())
    }

    /// Uniform in `0..n`.
    pub fn below(&mut self, n: usize) -> (r: usize)
        requires
            n > 0,
        ensures
            final(self)@ == after(old(self)@, 1),
            r as int == draw(old(self)@, 1) as int % n as int,
            r < n,
    {
        let word: u64 = self.next_u64();
        (word % (n as u64)) as usize
    }
}

/// Steps add up.
pub proof fn lemma_after(state: u64, a: nat, b: nat)
    ensures
        after(after(state, a), b) == after(state, a + b),
    decreases b,
{
    if b > 0 {
        lemma_after(state, a, (b - 1) as nat);
    }
}

/// A generator and the state it has filled so far.
pub struct Filled {
    /// State of the generator.
    pub rng: u64,
    /// Accounts by hashed address.
    pub accounts: Map<B256, Account>,
    /// Slots by hashed address and hashed slot.
    pub storages: Map<B256, Map<B256, U256>>,
}

/// With one more externally owned account: address, nonce below 50, balance.
pub open spec fn with_eoa(s: Filled) -> Filled {
    let account = Account {
        nonce: (draw(s.rng, 5) % 50) as u64,
        balance: number_of(draw(s.rng, 6) as nat),
        bytecode_hash: None,
    };
    Filled {
        rng: after(s.rng, 6),
        accounts: s.accounts.insert(word_of(draw_bytes(s.rng)), account),
        storages: s.storages,
    }
}

/// With `n` more externally owned accounts.
pub open spec fn with_eoas(s: Filled, n: nat) -> Filled
    decreases n,
{
    if n == 0 {
        s
    } else {
        with_eoa(with_eoas(s, (n - 1) as nat))
    }
}

/// The sizes of `n` small contracts, from 1 to `max`.
pub open spec fn small_sizes(rng: u64, n: nat, max: usize) -> Seq<usize> {
    Seq::new(n, |i: int| (1 + draw(rng, (i + 1) as nat) as int % max as int) as usize)
}

/// With one more slot: value from 1 to `u32::MAX`, then key.
pub open spec fn with_slot(s: Filled, address: B256) -> Filled {
    let value = number_of((1 + draw(s.rng, 1) as int % 0xffff_ffff) as nat);
    let slot = word_of(draw_bytes(after(s.rng, 1)));
    Filled {
        rng: after(s.rng, 5),
        accounts: s.accounts,
        storages: s.storages.insert(address, slots_in(s.storages, address).insert(slot, value)),
    }
}

/// With `n` more slots.
pub open spec fn with_slots(s: Filled, address: B256, n: nat) -> Filled
    decreases n,
{
    if n == 0 {
        s
    } else {
        with_slot(with_slots(s, address, (n - 1) as nat), address)
    }
}

/// With the account of one more contract: address, balance below a million, code hash.
pub open spec fn with_contract_account(s: Filled) -> Filled {
    let account = Account {
        nonce: 1,
        balance: number_of((draw(s.rng, 5) as int % 1_000_000) as nat),
        bytecode_hash: Some(word_of(draw_bytes(after(s.rng, 5)))),
    };
    Filled {
        rng: after(s.rng, 9),
        accounts: s.accounts.insert(word_of(draw_bytes(s.rng)), account),
        storages: s.storages,
    }
}

/// With one more contract of the given size.
pub open spec fn with_contract(s: Filled, slots: usize) -> Filled {
    with_slots(with_contract_account(s), word_of(draw_bytes(s.rng)), slots as nat)
}

/// With contracts of the given sizes.
pub open spec fn with_contracts(s: Filled, sizes: Seq<usize>) -> Filled
    decreases sizes.len(),
{
    if sizes.len() == 0 {
        s
    } else {
        with_contract(with_contracts(s, sizes.drop_last()), sizes.last())
    }
}

/// The state that a configuration describes: the externally owned accounts, then the small
/// contracts, all sizes drawn first, then the large ones.
pub open spec fn synthesized(config: SynthConfig) -> Filled {
    let empty = Filled { rng: config.seed, accounts: Map::empty(), storages: Map::empty() };
    let eoas = with_eoas(empty, config.eoas as nat);
    let n = config.small_contracts as nat;
    let sized = Filled { rng: after(eoas.rng, n), ..eoas };
    with_contracts(
        sized,
        small_sizes(eoas.rng, n, config.small_slots_max) + config.large_contracts@,
    )
}

/// A generator and a state as one.
spec fn filled(rng: Rng, state: MemoryState) -> Filled {
    Filled { rng: rng@, accounts: state.accounts(), storages: state.storages() }
}

/// Adds an externally owned account.
fn add_eoa(rng: &mut Rng, state: &mut MemoryState)
    ensures
        filled(*final(rng), *final(state)) == with_eoa(filled(*old(rng), *old(state))),
{
    let ghost start = rng@;
    let hashed_address = rng.next_b256();
    let nonce = rng.below(50) as u64;
    let balance = U256::from(rng.next_u64());
    proof {
        lemma_after(start, 4, 1);
        lemma_after(start, 5, 1);
        lemma_word(hashed_address);
        lemma_number(balance);
    }
    state.insert_account(hashed_address, Account { nonce, balance, bytecode_hash: None });
}

/// Draws the sizes of the small contracts.
fn draw_sizes(rng: &mut Rng, n: usize, max: usize) -> (r: Vec<usize>)
    requires
        n > 0 ==> max > 0,
    ensures
        final(rng)@ == after(old(rng)@, n as nat),
        r@ == small_sizes(old(rng)@, n as nat, max),
{
    let ghost start = rng@;
    let mut sizes: Vec<usize> = Vec::new();
    let mut i: usize = 0;
    assert(sizes@ =~= small_sizes(start, 0, max));
    while i < n
        invariant
            i <= n,
            n > 0 ==> max > 0,
            rng@ == after(start, i as nat),
            sizes@ =~= small_sizes(start, i as nat, max),
        decreases n - i,
    {
        let size: usize = rng.below(max);
        sizes.push(1 + size);
        proof {
            lemma_after(start, i as nat, 1);
        }
        i = i + 1;
    }
    sizes
}

/// Adds a slot.
fn add_slot(rng: &mut Rng, state: &mut MemoryState, hashed_address: B256)
    ensures
        filled(*final(rng), *final(state)) == with_slot(
            filled(*old(rng), *old(state)),
            hashed_address,
        ),
{
    let ghost start = rng@;
    let max: usize = 0xffff_ffff;
    let value = U256::from(1 + rng.below(max) as u64);
    let hashed_slot = rng.next_b256();
    proof {
        lemma_after(start, 1, 4);
        lemma_word(hashed_slot);
        lemma_number(value);
    }
    state.insert_storage(hashed_address, hashed_slot, value);
}

/// Adds a contract and its slots.
fn add_contract(rng: &mut Rng, state: &mut MemoryState, slots: usize)
    ensures
        filled(*final(rng), *final(state)) == with_contract(filled(*old(rng), *old(state)), slots),
{
    let ghost before = filled(*rng, *state);
    let hashed_address = rng.next_b256();
    let balance = U256::from(rng.below(1_000_000) as u64);
    let code_hash = rng.next_b256();
    proof {
        lemma_after(before.rng, 4, 1);
        lemma_after(before.rng, 5, 4);
        lemma_word(hashed_address);
        lemma_word(code_hash);
        lemma_number(balance);
    }
    state.insert_account(
        hashed_address,
        Account { nonce: 1, balance, bytecode_hash: Some(code_hash) },
    );
    let ghost opened = with_contract_account(before);
    let mut k: usize = 0;
    while k < slots
        invariant
            k <= slots,
            filled(*rng, *state) == with_slots(opened, hashed_address, k as nat),
        decreases slots - k,
    {
        add_slot(rng, state, hashed_address);
        k = k + 1;
    }
}

/// Builds the synthetic state described by `config`.
#[verifier::rlimit(30)]
pub fn synthesize(config: &SynthConfig) -> (r: MemoryState)
    requires
        config.small_contracts > 0 ==> config.small_slots_max > 0,
    ensures
        r.accounts() == synthesized(*config).accounts,
        r.storages() == synthesized(*config).storages,
{
    let mut rng = Rng::new(config.seed);
    let mut state = MemoryState::default();
    let ghost empty = filled(rng, state);
    let mut i: usize = 0;
    while i < config.eoas
        invariant
            i <= config.eoas,
            filled(rng, state) == with_eoas(empty, i as nat),
        decreases config.eoas - i,
    {
        add_eoa(&mut rng, &mut state);
        i = i + 1;
    }
    let ghost eoas = filled(rng, state);

    let mut contract_sizes = draw_sizes(
        &mut rng,
        config.small_contracts,
        config.small_slots_max,
    );
    let ghost small = contract_sizes@;
    let mut i: usize = 0;
    while i < config.large_contracts.len()
        invariant
            i <= config.large_contracts@.len(),
            contract_sizes@ =~= small + config.large_contracts@.take(i as int),
        decreases config.large_contracts@.len() - i,
    {
        contract_sizes.push(config.large_contracts[i]);
        i = i + 1;
    }
    assert(contract_sizes@ =~= small + config.large_contracts@);
    let ghost sized = filled(rng, state);

    let mut i: usize = 0;
    assert(contract_sizes@.take(0) =~= Seq::empty());
    while i < contract_sizes.len()
        invariant
            i <= contract_sizes@.len(),
            filled(rng, state) == with_contracts(sized, contract_sizes@.take(i as int)),
        decreases contract_sizes@.len() - i,
    {
        add_contract(&mut rng, &mut state, contract_sizes[i]);
        proof {
            let more = contract_sizes@.take(i + 1);
            assert(more.drop_last() =~= contract_sizes@.take(i as int));
        }
        i = i + 1;
    }
    assert(contract_sizes@.take(contract_sizes@.len() as int) =~= contract_sizes@);
    state
}

} // verus!

//! What the generator of synthetic states draws: no word twice, so one more contract only adds.

use crate::bytes::{be_bytes, le_bytes, lemma_be_bytes_len, lemma_value_of_bytes, pow256};
use crate::memory::slots_in;
use crate::primitives::{lemma_word_of_bytes, word_of, B256, U256};
use crate::synth::{
    after, draw, draw_bytes, lemma_after, mixed, small_sizes, synthesized, with_contract,
    with_contract_account, with_contracts, with_eoas, with_slots, Filled, SynthConfig,
};
use vstd::prelude::*;

verus! {

/// The number of words that contracts of the given sizes take from the generator.
pub open spec fn contract_words(sizes: Seq<usize>) -> nat
    decreases sizes.len(),
{
    if sizes.len() == 0 {
        0
    } else {
        contract_words(sizes.drop_last()) + 9 + 5 * sizes.last() as nat
    }
}

/// The number of words that a configuration takes from the generator.
pub open spec fn words_drawn(config: SynthConfig) -> nat {
    let n = config.small_contracts as nat;
    let eoas = after(config.seed, 6 * config.eoas as nat);
    6 * config.eoas as nat + n + contract_words(
        small_sizes(eoas, n, config.small_slots_max) + config.large_contracts@,
    )
}

proof fn lemma_times_odd(x: nat, y: nat, c: nat, inverse: nat, q: nat)
    requires
        x < 0x1_0000_0000_0000_0000,
        y < 0x1_0000_0000_0000_0000,
        c * inverse == 1 + 0x1_0000_0000_0000_0000 * q,
        (x * c) % 0x1_0000_0000_0000_0000 == (y * c) % 0x1_0000_0000_0000_0000,
    ensures
        x == y,
{
    lemma_undone(x, c, inverse, q);
    lemma_undone(y, c, inverse, q);
}

proof fn lemma_undone(x: nat, c: nat, inverse: nat, q: nat)
    requires
        x < 0x1_0000_0000_0000_0000,
        c * inverse == 1 + 0x1_0000_0000_0000_0000 * q,
    ensures
        (((x * c) % 0x1_0000_0000_0000_0000) * inverse) % 0x1_0000_0000_0000_0000 == x,
{
    let m = 0x1_0000_0000_0000_0000int;
    vstd::arithmetic::div_mod::lemma_mul_mod_noop_left((x * c) as int, inverse as int, m);
    assert((x * c) * inverse == m * (x * q) + x) by (nonlinear_arith)
        requires
            c * inverse == 1 + m * q,
    ;
    vstd::arithmetic::div_mod::lemma_mod_multiples_vanish((x * q) as int, x as int, m);
    vstd::arithmetic::div_mod::lemma_small_mod(x, m as nat);
}

/// Different states give different bits.
proof fn lemma_mixed_injective(x: u64, y: u64)
    requires
        mixed(x) == mixed(y),
    ensures
        x == y,
{
    let (a, b) = (x ^ (x >> 30), y ^ (y >> 30));
    let (c, d) = (
        a.wrapping_mul(0xBF58_476D_1CE4_E5B9),
        b.wrapping_mul(0xBF58_476D_1CE4_E5B9),
    );
    let (e, f) = (c ^ (c >> 27), d ^ (d >> 27));
    let (g, h) = (
        e.wrapping_mul(0x94D0_49BB_1331_11EB),
        f.wrapping_mul(0x94D0_49BB_1331_11EB),
    );
    assert(g ^ (g >> 31) == h ^ (h >> 31) ==> g == h) by (bit_vector);
    lemma_times_odd(
        e as nat,
        f as nat,
        0x94D0_49BB_1331_11EB,
        0x3196_42B2_D24D_8EC3,
        2_077_064_247_507_883_091,
    );
    assert(c ^ (c >> 27) == d ^ (d >> 27) ==> c == d) by (bit_vector);
    lemma_times_odd(
        a as nat,
        b as nat,
        0xBF58_476D_1CE4_E5B9,
        0x96DE_1B17_3F11_9089,
        8_125_545_580_553_827_436,
    );
    assert(x ^ (x >> 30) == y ^ (y >> 30) ==> x == y) by (bit_vector);
}

proof fn lemma_after_value(state: u64, n: nat)
    ensures
        after(state, n) == (state + n * 0x9E37_79B9_7F4A_7C15) % 0x1_0000_0000_0000_0000,
    decreases n,
{
    let (g, m) = (0x9E37_79B9_7F4A_7C15int, 0x1_0000_0000_0000_0000int);
    if n > 0 {
        lemma_after_value(state, (n - 1) as nat);
        let before = state + (n - 1) * g;
        assert(state + n * g == before + g) by (nonlinear_arith)
            requires
                before == state + (n - 1) * g,
        ;
        vstd::arithmetic::div_mod::lemma_add_mod_noop(before, g, m);
    }
}

/// The generator comes back to a state only after all others.
proof fn lemma_states_differ(state: u64, i: nat, j: nat)
    requires
        i < j,
        j - i < 0x1_0000_0000_0000_0000,
    ensures
        after(state, i) != after(state, j),
{
    let (g, m) = (0x9E37_79B9_7F4A_7C15int, 0x1_0000_0000_0000_0000int);
    let d = (j - i) as nat;
    let t = after(state, i);
    lemma_after(state, i, d);
    lemma_after_value(t, d);
    if after(state, j) == t {
        let k = (t + d * g) / m;
        vstd::arithmetic::div_mod::lemma_fundamental_div_mod(t + d * g, m);
        assert(d * g == m * k + 0);
        vstd::arithmetic::div_mod::lemma_mod_multiples_vanish(k, 0, m);
        assert(g * 0xF1DE_83E1_9937_733D == 1 + m * 10_771_413_168_148_108_919);
        lemma_times_odd(
            d,
            0,
            g as nat,
            0xF1DE_83E1_9937_733D,
            10_771_413_168_148_108_919,
        );
    }
}

/// Words drawn in different states differ.
proof fn lemma_words_differ(s: u64, t: u64)
    requires
        word_of(draw_bytes(s)) == word_of(draw_bytes(t)),
    ensures
        s == t,
{
    let (x, y) = (draw(s, 1), draw(t, 1));
    lemma_draw_len(s);
    lemma_draw_len(t);
    lemma_word_of_bytes(draw_bytes(s));
    lemma_word_of_bytes(draw_bytes(t));
    lemma_be_bytes_len(x as nat, 8);
    lemma_be_bytes_len(y as nat, 8);
    let (p, q) = (le_bytes(x as nat, 8), le_bytes(y as nat, 8));
    assert(draw_bytes(s).take(8) =~= p);
    assert(draw_bytes(t).take(8) =~= q);
    assert(p.reverse() =~= be_bytes(x as nat, 8));
    assert(q.reverse() =~= be_bytes(y as nat, 8));
    assert(pow256(8) == 0x1_0000_0000_0000_0000) by {
        reveal_with_fuel(pow256, 9);
    }
    lemma_value_of_bytes(x as nat, 8);
    lemma_value_of_bytes(y as nat, 8);
    lemma_mixed_injective(after(s, 1), after(t, 1));
    reveal_with_fuel(after, 2);
}

proof fn lemma_draw_len(s: u64)
    ensures
        draw_bytes(s).len() == 32,
{
    lemma_be_bytes_len(draw(s, 1) as nat, 8);
    lemma_be_bytes_len(draw(s, 2) as nat, 8);
    lemma_be_bytes_len(draw(s, 3) as nat, 8);
    lemma_be_bytes_len(draw(s, 4) as nat, 8);
}

/// The word that is drawn after `n` words.
spec fn word_at(seed: u64, n: nat) -> B256 {
    word_of(draw_bytes(after(seed, n)))
}

proof fn lemma_words_at_differ(seed: u64, i: nat, j: nat)
    requires
        i < j < 0x1_0000_0000_0000_0000,
    ensures
        word_at(seed, i) != word_at(seed, j),
{
    lemma_states_differ(seed, i, j);
    if word_at(seed, i) == word_at(seed, j) {
        lemma_words_differ(after(seed, i), after(seed, j));
    }
}

/// Whether an address was drawn before the word `n`.
spec fn drawn_before(seed: u64, n: nat, a: B256) -> bool {
    exists|m: nat| m < n && #[trigger] word_at(seed, m) == a
}

/// Whether a state was filled from the first `n` words.
spec fn filled_from(s: Filled, seed: u64, n: nat) -> bool {
    &&& s.rng == after(seed, n)
    &&& s.accounts.dom().finite()
    &&& forall|a: B256| #[trigger] s.accounts.contains_key(a) ==> drawn_before(seed, n, a)
    &&& forall|a: B256| #[trigger] s.storages.contains_key(a) ==> s.accounts.contains_key(a)
}

proof fn lemma_drawn_later(seed: u64, n: nat, m: nat, a: B256)
    requires
        drawn_before(seed, n, a),
        n <= m,
    ensures
        drawn_before(seed, m, a),
{
    let k = choose|k: nat| k < n && #[trigger] word_at(seed, k) == a;
    assert(k < m && word_at(seed, k) == a);
}

proof fn lemma_eoas_from(s: Filled, seed: u64, n: nat, k: nat)
    requires
        filled_from(s, seed, n),
    ensures
        filled_from(with_eoas(s, k), seed, n + 6 * k),
        with_eoas(s, k).rng == after(s.rng, 6 * k),
    decreases k,
{
    if k > 0 {
        let m = (k - 1) as nat;
        lemma_eoas_from(s, seed, n, m);
        let before = with_eoas(s, m);
        let after_one = with_eoas(s, k);
        lemma_after(seed, n + 6 * m, 6);
        lemma_after(s.rng, 6 * m, 6);
        let new = word_at(seed, n + 6 * m);
        assert forall|a: B256| #[trigger] after_one.accounts.contains_key(a) implies drawn_before(
            seed,
            n + 6 * k,
            a,
        ) by {
            if a == new {
                assert(word_at(seed, n + 6 * m) == a);
            } else {
                assert(before.accounts.contains_key(a));
                lemma_drawn_later(seed, n + 6 * m, n + 6 * k, a);
            }
        }
    }
}

/// What slots change: the generator, and the slots of their address.
proof fn lemma_slots_change(s: Filled, address: B256, k: nat)
    ensures
        with_slots(s, address, k).rng == after(s.rng, 5 * k),
        with_slots(s, address, k).accounts == s.accounts,
        forall|a: B256|
            a != address ==> slots_in(#[trigger] with_slots(s, address, k).storages, a) == slots_in(
                s.storages,
                a,
            ),
        forall|a: B256| #[trigger]
            with_slots(s, address, k).storages.contains_key(a) ==> s.storages.contains_key(a) || a
                == address,
    decreases k,
{
    if k > 0 {
        lemma_slots_change(s, address, (k - 1) as nat);
        lemma_after(s.rng, (5 * (k - 1)) as nat, 5);
    }
}

proof fn lemma_contract_from(s: Filled, seed: u64, n: nat, size: usize)
    requires
        filled_from(s, seed, n),
    ensures
        filled_from(with_contract(s, size), seed, n + 9 + 5 * size as nat),
{
    let opened = with_contract_account(s);
    let all = with_contract(s, size);
    let new = word_at(seed, n);
    let m = n + 9 + 5 * size as nat;
    lemma_slots_change(opened, new, size as nat);
    lemma_after(seed, n, 9);
    lemma_after(seed, n + 9, 5 * size as nat);
    assert forall|a: B256| #[trigger] all.accounts.contains_key(a) implies drawn_before(
        seed,
        m,
        a,
    ) by {
        if a == new {
            assert(word_at(seed, n) == a);
        } else {
            assert(s.accounts.contains_key(a));
            lemma_drawn_later(seed, n, m, a);
        }
    }
}

proof fn lemma_contracts_from(s: Filled, seed: u64, n: nat, sizes: Seq<usize>)
    requires
        filled_from(s, seed, n),
    ensures
        filled_from(with_contracts(s, sizes), seed, n + contract_words(sizes)),
    decreases sizes.len(),
{
    if sizes.len() > 0 {
        let rest = sizes.drop_last();
        lemma_contracts_from(s, seed, n, rest);
        lemma_contract_from(
            with_contracts(s, rest),
            seed,
            n + contract_words(rest),
            sizes.last(),
        );
    }
}

proof fn lemma_synthesized_from(config: SynthConfig)
    ensures
        filled_from(synthesized(config), config.seed, words_drawn(config)),
{
    let seed = config.seed;
    let empty = Filled { rng: seed, accounts: Map::empty(), storages: Map::empty() };
    let eoas = with_eoas(empty, config.eoas as nat);
    let n = config.small_contracts as nat;
    let drawn = 6 * config.eoas as nat;
    let sized = Filled { rng: after(eoas.rng, n), ..eoas };
    assert(filled_from(empty, seed, 0));
    lemma_eoas_from(empty, seed, 0, config.eoas as nat);
    lemma_after(seed, drawn, n);
    assert forall|a: B256| #[trigger] sized.accounts.contains_key(a) implies drawn_before(
        seed,
        drawn + n,
        a,
    ) by {
        assert(eoas.accounts.contains_key(a));
        lemma_drawn_later(seed, drawn, drawn + n, a);
    }
    assert(filled_from(sized, seed, drawn + n));
    lemma_contracts_from(
        sized,
        seed,
        drawn + n,
        small_sizes(eoas.rng, n, config.small_slots_max) + config.large_contracts@,
    );
}

/// The slot `i` of a contract whose slots are drawn from the word `n` on.
spec fn slot_at(seed: u64, n: nat, i: nat) -> B256 {
    word_at(seed, n + 5 * i + 1)
}

/// Whether a slot is one of the first `k` of a contract.
spec fn is_slot_of(seed: u64, n: nat, k: nat, slot: B256) -> bool {
    exists|i: nat| i < k && #[trigger] slot_at(seed, n, i) == slot
}

/// Slots of a fresh address: as many as were drawn.
proof fn lemma_fresh_slots(s: Filled, seed: u64, n: nat, address: B256, k: nat)
    requires
        s.rng == after(seed, n),
        n + 5 * k < 0x1_0000_0000_0000_0000,
        slots_in(s.storages, address) == Map::<B256, U256>::empty(),
    ensures
        slots_in(with_slots(s, address, k).storages, address).dom().finite(),
        slots_in(with_slots(s, address, k).storages, address).len() == k,
        forall|slot: B256| #[trigger]
            slots_in(with_slots(s, address, k).storages, address).contains_key(slot) ==> is_slot_of(
                seed,
                n,
                k,
                slot,
            ),
    decreases k,
{
    if k > 0 {
        let m = (k - 1) as nat;
        lemma_fresh_slots(s, seed, n, address, m);
        lemma_slots_change(s, address, m);
        lemma_after(seed, n, 5 * m);
        lemma_after(seed, n + 5 * m, 1);
        let before = slots_in(with_slots(s, address, m).storages, address);
        let slots = slots_in(with_slots(s, address, k).storages, address);
        let new = slot_at(seed, n, m);
        if before.contains_key(new) {
            assert(is_slot_of(seed, n, m, new));
            let i = choose|i: nat| i < m && #[trigger] slot_at(seed, n, i) == new;
            lemma_words_at_differ(seed, n + 5 * i + 1, n + 5 * m + 1);
        }
        assert(slots.dom() =~= before.dom().insert(new));
        assert forall|slot: B256| #[trigger] slots.contains_key(slot) implies is_slot_of(
            seed,
            n,
            k,
            slot,
        ) by {
            if slot == new {
                assert(slot_at(seed, n, m) == slot);
            } else {
                assert(before.contains_key(slot));
                assert(is_slot_of(seed, n, m, slot));
                let i = choose|i: nat| i < m && #[trigger] slot_at(seed, n, i) == slot;
                assert(i < k && slot_at(seed, n, i) == slot);
            }
        }
    }
}

/// Whether `t` is `s` with one more account at a new address, with the given number of slots.
pub open spec fn adds_contract(s: Filled, t: Filled, new: B256, slots: usize) -> bool {
    &&& s.accounts.submap_of(t.accounts)
    &&& !s.accounts.contains_key(new)
    &&& t.accounts.dom() == s.accounts.dom().insert(new)
    &&& t.accounts.len() == s.accounts.len() + 1
    &&& forall|a: B256| a != new ==> #[trigger] slots_in(t.storages, a) == slots_in(s.storages, a)
    &&& slots_in(s.storages, new) == Map::<B256, U256>::empty()
    &&& slots_in(t.storages, new).len() == slots
}

/// One more large contract only adds one account with its slots: all other accounts and slots stay
/// as they are. The generator must not run through all of its 2^64 states.
pub proof fn lemma_one_more_large_contract(c: SynthConfig, d: SynthConfig, slots: usize)
    requires
        d.seed == c.seed,
        d.eoas == c.eoas,
        d.small_contracts == c.small_contracts,
        d.small_slots_max == c.small_slots_max,
        d.large_contracts@ == c.large_contracts@.push(slots),
        words_drawn(d) < 0x1_0000_0000_0000_0000,
    ensures
        adds_contract(
            synthesized(c),
            synthesized(d),
            word_of(draw_bytes(synthesized(c).rng)),
            slots,
        ),
{
    lemma_next_contract(c, d, slots);
    lemma_synthesized_from(c);
    lemma_contract_adds(synthesized(c), c.seed, words_drawn(c), slots);
}

proof fn lemma_next_contract(c: SynthConfig, d: SynthConfig, slots: usize)
    requires
        d.seed == c.seed,
        d.eoas == c.eoas,
        d.small_contracts == c.small_contracts,
        d.small_slots_max == c.small_slots_max,
        d.large_contracts@ == c.large_contracts@.push(slots),
    ensures
        synthesized(d) == with_contract(synthesized(c), slots),
        words_drawn(d) == words_drawn(c) + 9 + 5 * slots as nat,
{
    let empty = Filled { rng: c.seed, accounts: Map::empty(), storages: Map::empty() };
    let n = c.small_contracts as nat;
    let eoas = with_eoas(empty, c.eoas as nat);
    let small = small_sizes(eoas.rng, n, c.small_slots_max);
    let (x, y) = (small + c.large_contracts@, small + d.large_contracts@);
    assert(y.drop_last() =~= x);
    assert(y.last() == slots);
    let more = small_sizes(after(c.seed, 6 * c.eoas as nat), n, c.small_slots_max);
    let (p, q) = (more + c.large_contracts@, more + d.large_contracts@);
    assert(q.drop_last() =~= p);
    assert(q.last() == slots);
}

proof fn lemma_contract_adds(s: Filled, seed: u64, n: nat, slots: usize)
    requires
        filled_from(s, seed, n),
        n + 9 + 5 * (slots as nat) < 0x1_0000_0000_0000_0000,
    ensures
        adds_contract(s, with_contract(s, slots), word_of(draw_bytes(s.rng)), slots),
{
    let t = with_contract(s, slots);
    let new = word_of(draw_bytes(s.rng));
    let opened = with_contract_account(s);
    assert(!s.accounts.contains_key(new)) by {
        if s.accounts.contains_key(new) {
            assert(drawn_before(seed, n, new));
            let m = choose|m: nat| m < n && #[trigger] word_at(seed, m) == new;
            lemma_words_at_differ(seed, m, n);
        }
    }
    assert(!s.storages.contains_key(new));
    assert(opened.rng == after(seed, n + 9)) by {
        lemma_after(seed, n, 9);
    }
    assert(slots_in(t.storages, new).len() == slots) by {
        lemma_fresh_slots(opened, seed, n + 9, new, slots as nat);
    }
    lemma_slots_change(opened, new, slots as nat);
    assert(t.accounts == opened.accounts);
    assert(t.accounts.dom() =~= s.accounts.dom().insert(new));
    assert forall|a: B256| a != new implies #[trigger] slots_in(t.storages, a) == slots_in(
        s.storages,
        a,
    ) by {
        assert(slots_in(with_slots(opened, new, slots as nat).storages, a) == slots_in(
            opened.storages,
            a,
        ));
    }
}

proof fn lemma_owned_accounts_are_counted(s: Filled, seed: u64, n: nat, k: nat)
    requires
        filled_from(s, seed, n),
        n + 6 * k < 0x1_0000_0000_0000_0000,
    ensures
        with_eoas(s, k).accounts.len() == s.accounts.len() + k,
    decreases k,
{
    if k > 0 {
        let m = (k - 1) as nat;
        lemma_owned_accounts_are_counted(s, seed, n, m);
        lemma_eoas_from(s, seed, n, m);
        let before = with_eoas(s, m);
        let new = word_at(seed, n + 6 * m);
        assert(!before.accounts.contains_key(new)) by {
            if before.accounts.contains_key(new) {
                assert(drawn_before(seed, n + 6 * m, new));
                let j = choose|j: nat| j < n + 6 * m && #[trigger] word_at(seed, j) == new;
                lemma_words_at_differ(seed, j, n + 6 * m);
            }
        }
        assert(with_eoas(s, k).accounts.dom() =~= before.accounts.dom().insert(new));
    }
}

proof fn lemma_contracts_are_counted(s: Filled, seed: u64, n: nat, sizes: Seq<usize>)
    requires
        filled_from(s, seed, n),
        n + contract_words(sizes) < 0x1_0000_0000_0000_0000,
    ensures
        with_contracts(s, sizes).accounts.len() == s.accounts.len() + sizes.len(),
    decreases sizes.len(),
{
    if sizes.len() > 0 {
        let rest = sizes.drop_last();
        lemma_contracts_are_counted(s, seed, n, rest);
        lemma_contracts_from(s, seed, n, rest);
        lemma_contract_adds(
            with_contracts(s, rest),
            seed,
            n + contract_words(rest),
            sizes.last(),
        );
    }
}

/// A synthetic state has as many accounts as were asked for: the externally owned ones, the small
/// contracts and the large ones. The generator must not run through all of its 2^64 states.
pub proof fn lemma_all_accounts_are_there(config: SynthConfig)
    requires
        words_drawn(config) < 0x1_0000_0000_0000_0000,
    ensures
        synthesized(config).accounts.dom().finite(),
        synthesized(config).accounts.len() == config.eoas + config.small_contracts
            + config.large_contracts@.len(),
{
    let seed = config.seed;
    let empty = Filled { rng: seed, accounts: Map::empty(), storages: Map::empty() };
    let eoas = with_eoas(empty, config.eoas as nat);
    let n = config.small_contracts as nat;
    let drawn = 6 * config.eoas as nat;
    let sized = Filled { rng: after(eoas.rng, n), ..eoas };
    let sizes = small_sizes(eoas.rng, n, config.small_slots_max) + config.large_contracts@;
    assert(filled_from(empty, seed, 0));
    lemma_eoas_from(empty, seed, 0, config.eoas as nat);
    lemma_owned_accounts_are_counted(empty, seed, 0, config.eoas as nat);
    lemma_after(seed, drawn, n);
    assert forall|a: B256| #[trigger] sized.accounts.contains_key(a) implies drawn_before(
        seed,
        drawn + n,
        a,
    ) by {
        assert(eoas.accounts.contains_key(a));
        lemma_drawn_later(seed, drawn, drawn + n, a);
    }
    assert(filled_from(sized, seed, drawn + n));
    lemma_contracts_are_counted(sized, seed, drawn + n, sizes);
    lemma_synthesized_from(config);
}

/// Words drawn in different states of the generator differ, and so do words drawn at different
/// times, until it has run through all of its 2^64 states.
pub proof fn lemma_words_do_not_repeat(seed: u64, i: nat, j: nat)
    requires
        0 < i < j,
        j - i < 0x1_0000_0000_0000_0000,
    ensures
        draw(seed, i) != draw(seed, j),
{
    lemma_states_differ(seed, i, j);
    if draw(seed, i) == draw(seed, j) {
        lemma_mixed_injective(after(seed, i), after(seed, j));
    }
}

} // verus!

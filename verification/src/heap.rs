//! Counting allocations, for reporting the peak heap of a run.
//!
//! The database is memory-mapped, so a process's resident size says nothing about what the build
//! itself allocates. Counting at the allocator gives the heap alone: the builders' stacks, the
//! chunks waiting to be written, and whatever the cursors hold.

use crate::text::{decimal, digit_char, push_decimal, push_digit};
use vstd::prelude::*;
use vstd::string::StringExecFns;

verus! {

/// Tracks the current and peak number of live heap bytes.
#[derive(Debug)]
pub struct PeakAlloc {
    current: usize,
    peak: usize,
}

/// The content of a [`PeakAlloc`].
pub struct PeakView {
    /// Live bytes.
    pub current: usize,
    /// The highest number of live bytes since the last reset.
    pub peak: usize,
}

/// A change of the counters.
pub enum HeapEvent {
    /// Bytes that were allocated.
    Add(usize),
    /// Bytes that were freed.
    Sub(usize),
}

/// The counters after an event.
pub open spec fn counted(c: PeakView, event: HeapEvent) -> PeakView {
    match event {
        HeapEvent::Add(bytes) => {
            let now = (c.current + bytes) as usize;
            PeakView { current: now, peak: if now > c.peak { now } else { c.peak } }
        },
        HeapEvent::Sub(bytes) => PeakView { current: c.current.wrapping_sub(bytes), peak: c.peak },
    }
}

/// The counters after events.
pub open spec fn counted_all(c: PeakView, events: Seq<HeapEvent>) -> PeakView
    decreases events.len(),
{
    if events.len() == 0 {
        c
    } else {
        counted(counted_all(c, events.drop_last()), events.last())
    }
}

/// Whether no event frees more than is live, nor allocates more than fits.
pub open spec fn plausible(c: PeakView, events: Seq<HeapEvent>) -> bool {
    forall|i: int|
        0 <= i < events.len() ==> match #[trigger] events[i] {
            HeapEvent::Add(bytes) => counted_all(c, events.take(i)).current + bytes <= usize::MAX,
            HeapEvent::Sub(bytes) => bytes <= counted_all(c, events.take(i)).current,
        }
}

/// The bytes of all allocations.
pub open spec fn bytes_added(events: Seq<HeapEvent>) -> nat
    decreases events.len(),
{
    if events.len() == 0 {
        0
    } else {
        bytes_added(events.drop_last()) + match events.last() {
            HeapEvent::Add(bytes) => bytes as nat,
            HeapEvent::Sub(_) => 0,
        }
    }
}

/// The bytes of all deallocations.
pub open spec fn bytes_freed(events: Seq<HeapEvent>) -> nat
    decreases events.len(),
{
    if events.len() == 0 {
        0
    } else {
        bytes_freed(events.drop_last()) + match events.last() {
            HeapEvent::Add(_) => 0,
            HeapEvent::Sub(bytes) => bytes as nat,
        }
    }
}

/// The current number of bytes is that of the live blocks: what was live at the start and what was
/// allocated since, less what was freed.
pub proof fn lemma_current_is_live(c: PeakView, events: Seq<HeapEvent>)
    requires
        plausible(c, events),
    ensures
        counted_all(c, events).current == c.current + bytes_added(events) - bytes_freed(events),
    decreases events.len(),
{
    if events.len() > 0 {
        let rest = events.drop_last();
        let n = rest.len() as int;
        assert forall|i: int| 0 <= i < n implies match #[trigger] rest[i] {
            HeapEvent::Add(bytes) => counted_all(c, rest.take(i)).current + bytes <= usize::MAX,
            HeapEvent::Sub(bytes) => bytes <= counted_all(c, rest.take(i)).current,
        } by {
            assert(rest[i] == events[i]);
            assert(rest.take(i) =~= events.take(i));
        }
        lemma_current_is_live(c, rest);
        assert(events.take(n) =~= rest);
        assert(match events[n] {
            HeapEvent::Add(bytes) => counted_all(c, rest).current + bytes <= usize::MAX,
            HeapEvent::Sub(bytes) => bytes <= counted_all(c, rest).current,
        });
    }
}

/// The peak since a reset is the highest number of live bytes at any time since, the time of the
/// reset included.
pub proof fn lemma_peak_is_highest(c: PeakView, events: Seq<HeapEvent>)
    requires
        c.peak == c.current,
        plausible(c, events),
    ensures
        forall|i: int|
            0 <= i <= events.len() ==> (#[trigger] counted_all(c, events.take(i))).current
                <= counted_all(c, events).peak,
        exists|i: int|
            0 <= i <= events.len() && (#[trigger] counted_all(c, events.take(i))).current
                == counted_all(c, events).peak,
    decreases events.len(),
{
    let n = events.len() as int;
    assert(events.take(n) =~= events);
    if n == 0 {
        assert(counted_all(c, events.take(0)).current == counted_all(c, events).peak);
    } else {
        let rest = events.drop_last();
        assert forall|i: int| 0 <= i <= rest.len() implies #[trigger] rest.take(i) =~= events.take(
            i,
        ) by {}
        assert forall|i: int| 0 <= i < rest.len() implies match #[trigger] rest[i] {
            HeapEvent::Add(bytes) => counted_all(c, rest.take(i)).current + bytes <= usize::MAX,
            HeapEvent::Sub(bytes) => bytes <= counted_all(c, rest.take(i)).current,
        } by {
            assert(rest[i] == events[i]);
            assert(rest.take(i) =~= events.take(i));
        }
        lemma_peak_is_highest(c, rest);
        let before = counted_all(c, rest);
        assert(rest =~= events.take(n - 1));
        assert(events.take(n - 1) =~= rest.take(rest.len() as int));
        assert(before.current <= before.peak) by {
            assert(counted_all(c, rest.take(rest.len() as int)).current <= before.peak);
        }
        assert(match events[n - 1] {
            HeapEvent::Add(bytes) => before.current + bytes <= usize::MAX,
            HeapEvent::Sub(bytes) => bytes <= before.current,
        });
        let after = counted_all(c, events);
        assert forall|i: int| 0 <= i <= n implies (#[trigger] counted_all(
            c,
            events.take(i),
        )).current <= after.peak by {
            if i < n {
                assert(rest.take(i) =~= events.take(i));
                assert(counted_all(c, rest.take(i)).current <= before.peak);
            }
        }
        if after.peak == before.peak {
            let i = choose|i: int|
                0 <= i <= rest.len() && (#[trigger] counted_all(c, rest.take(i))).current
                    == before.peak;
            assert(rest.take(i) =~= events.take(i));
            assert(counted_all(c, events.take(i)).current == after.peak);
        } else {
            assert(counted_all(c, events.take(n)).current == after.peak);
        }
    }
}

impl View for PeakAlloc {
    type V = PeakView;

    closed spec fn view(&self) -> PeakView {
        PeakView { current: self.current, peak: self.peak }
    }
}

impl PeakAlloc {
    /// Creates the counters, zeroed.
    pub fn new() -> (r: PeakAlloc)
        ensures
            r@ == (PeakView { current: 0, peak: 0 }),
    {
        PeakAlloc { current: 0, peak: 0 }
    }

    /// Live heap bytes right now.
    pub fn current(&self) -> (r: usize)
        ensures
            r == self@.current,
    {
        self.current
    }

    /// The highest number of live heap bytes seen since the last [`Self::reset_peak`].
    pub fn peak(&self) -> (r: usize)
        ensures
            r == self@.peak,
    {
        self.peak
    }

    /// Sets the peak to the current live size, so the next peak is that of the work that follows.
    pub fn reset_peak(&mut self)
        ensures
            final(self)@ == (PeakView { current: old(self)@.current, peak: old(self)@.current }),
    {
        self.peak = self.current;
    }

    /// Counts an allocation.
    pub fn add(&mut self, bytes: usize)
        requires
            old(self)@.current + bytes <= usize::MAX,
        ensures
            final(self)@ == counted(old(self)@, HeapEvent::Add(bytes)),
    {
        let now: usize = self.current + bytes;
        self.current = now;
        if now > self.peak {
            self.peak = now;
        }
    }

    /// Counts a deallocation.
    pub fn sub(&mut self, bytes: usize)
        ensures
            final(self)@ == counted(old(self)@, HeapEvent::Sub(bytes)),
    {
        self.current = self.current.wrapping_sub(bytes);
    }
}

impl Default for PeakAlloc {
    fn default() -> (r: PeakAlloc)
        ensures
            r@ == (PeakView { current: 0, peak: 0 }),
    {
        PeakAlloc::new()
    }
}

/// The quotient rounded to the nearest whole number, halves to the even one.
pub open spec fn rounded(n: nat, d: nat) -> nat {
    let (q, r) = (n / d, n % d);
    if 2 * r < d {
        q
    } else if 2 * r > d {
        q + 1
    } else {
        q + q % 2
    }
}

/// The distance of neighbouring numbers with 53 significant bits at `n`.
pub open spec fn spacing(n: nat) -> nat
    decreases n,
{
    if n < 0x20_0000_0000_0000 {
        1
    } else {
        2 * spacing(n / 2)
    }
}

/// The nearest number with 53 significant bits.
pub open spec fn with_53_bits(n: nat) -> nat {
    rounded(n, spacing(n)) * spacing(n)
}

/// Which unit a number of bytes is given in: the largest that it reaches.
pub open spec fn unit_of(n: nat) -> nat {
    if n < 0x400 {
        0
    } else if n < 0x10_0000 {
        1
    } else if n < 0x4000_0000 {
        2
    } else if n < 0x100_0000_0000 {
        3
    } else {
        4
    }
}

/// The number of bytes in a unit.
pub open spec fn unit_size(unit: nat) -> nat {
    if unit == 0 {
        1
    } else if unit == 1 {
        0x400
    } else if unit == 2 {
        0x10_0000
    } else if unit == 3 {
        0x4000_0000
    } else {
        0x100_0000_0000
    }
}

/// The name of a unit.
pub open spec fn unit_name(unit: nat) -> Seq<char> {
    if unit == 0 {
        "B"@
    } else if unit == 1 {
        "KiB"@
    } else if unit == 2 {
        "MiB"@
    } else if unit == 3 {
        "GiB"@
    } else {
        "TiB"@
    }
}

/// A number of hundredths with two decimals.
pub open spec fn two_decimals(hundredths: nat) -> Seq<char> {
    decimal(hundredths / 100) + "."@ + seq![
        digit_char(hundredths / 10 % 10),
        digit_char(hundredths % 10),
    ]
}

/// A byte count in its unit with two decimals, from the count with 53 significant bits.
pub open spec fn human_text(bytes: nat) -> Seq<char> {
    let n = with_53_bits(bytes);
    let unit = unit_of(n);
    two_decimals(rounded(100 * n, unit_size(unit))) + " "@ + unit_name(unit)
}

fn round(n: u128, d: u128) -> (r: u128)
    requires
        0 < d <= 0x1_0000_0000_0000_0000,
        n <= 0x1_0000_0000_0000_0000_0000_0000,
    ensures
        r == rounded(n as nat, d as nat),
        r <= n + 1,
{
    let q: u128 = n / d;
    let rest: u128 = n % d;
    assert(q <= n) by (nonlinear_arith)
        requires
            q == n / d,
            d > 0,
    ;
    if 2 * rest < d {
        q
    } else if 2 * rest > d {
        q + 1
    } else {
        q + q % 2
    }
}

proof fn lemma_with_53_bits(n: nat, s: nat)
    requires
        n <= 0xffff_ffff_ffff_ffff,
        s == spacing(n),
    ensures
        1 <= s <= 0x800,
        rounded(n, s) * s <= 0x1_0000_0000_0000_0000,
{
    reveal_with_fuel(spacing, 13);
    if s == 1 {
        lemma_rounded_fits(n, 1, 0x1_0000_0000_0000_0000);
    } else if s == 2 {
        lemma_rounded_fits(n, 2, 0x8000000000000000);
    } else if s == 4 {
        lemma_rounded_fits(n, 4, 0x4000000000000000);
    } else if s == 8 {
        lemma_rounded_fits(n, 8, 0x2000000000000000);
    } else if s == 16 {
        lemma_rounded_fits(n, 16, 0x1000000000000000);
    } else if s == 32 {
        lemma_rounded_fits(n, 32, 0x800000000000000);
    } else if s == 64 {
        lemma_rounded_fits(n, 64, 0x400000000000000);
    } else if s == 128 {
        lemma_rounded_fits(n, 128, 0x200000000000000);
    } else if s == 256 {
        lemma_rounded_fits(n, 256, 0x100000000000000);
    } else if s == 512 {
        lemma_rounded_fits(n, 512, 0x80000000000000);
    } else if s == 1024 {
        lemma_rounded_fits(n, 1024, 0x40000000000000);
    } else {
        lemma_rounded_fits(n, 2048, 0x20000000000000);
    }
}

proof fn lemma_rounded_fits(n: nat, s: nat, m: nat)
    requires
        s > 0,
        m * s == 0x1_0000_0000_0000_0000,
        n < m * s,
    ensures
        rounded(n, s) * s <= m * s,
{
    assert(n / s < m) by (nonlinear_arith)
        requires
            s > 0,
            n < m * s,
    ;
    assert(rounded(n, s) * s <= m * s) by (nonlinear_arith)
        requires
            rounded(n, s) <= m,
    ;
}

/// Formats a byte count in binary units with two decimals, e.g. `1.50 GiB`.
pub fn human_bytes(bytes: usize) -> (r: String)
    ensures
        r@ == human_text(bytes as nat),
{
    let mut step: u128 = 1;
    let mut rest: u128 = bytes as u128;
    proof {
        lemma_with_53_bits(bytes as nat, spacing(bytes as nat));
    }
    while rest >= 0x20_0000_0000_0000
        invariant
            step >= 1,
            spacing(bytes as nat) == step * spacing(rest as nat),
            spacing(bytes as nat) <= 0x800,
        decreases rest,
    {
        proof {
            let half = spacing((rest / 2) as nat);
            let s = step as nat;
            assert(spacing(rest as nat) == 2 * half);
            assert(s * (2 * half) == (2 * s) * half) by (nonlinear_arith);
            lemma_spacing_pos((rest / 2) as nat);
            assert(2 * s <= (2 * s) * half) by (nonlinear_arith)
                requires
                    half >= 1,
            ;
        }
        rest = rest / 2;
        step = step * 2;
    }
    proof {
        let s = step as nat;
        assert(s * 1 == s) by (nonlinear_arith);
    }
    let count: u128 = round(bytes as u128, step);
    assert(count * step == with_53_bits(bytes as nat));
    let value: u128 = count * step;
    let mut out = String::new();
    let (size, name): (u128, &str) = if value < 0x400 {
        (1, "B")
    } else if value < 0x10_0000 {
        (0x400, "KiB")
    } else if value < 0x4000_0000 {
        (0x10_0000, "MiB")
    } else if value < 0x100_0000_0000 {
        (0x4000_0000, "GiB")
    } else {
        (0x100_0000_0000, "TiB")
    };
    let hundredths: u128 = round(100 * value, size);
    proof {
        assert(size == unit_size(unit_of(value as nat)));
        lemma_hundredths_fit(value as nat);
    }
    push_decimal(&mut out, (hundredths / 100) as u64);
    out.append(".");
    push_digit(&mut out, (hundredths / 10 % 10) as u8);
    push_digit(&mut out, (hundredths % 10) as u8);
    let ghost number = out@;
    assert(number =~= two_decimals(hundredths as nat));
    out.append(" ");
    out.append(name);
    out
}

proof fn lemma_spacing_pos(n: nat)
    ensures
        spacing(n) >= 1,
    decreases n,
{
    if n >= 0x20_0000_0000_0000 {
        lemma_spacing_pos(n / 2);
    }
}

proof fn lemma_hundredths_fit(n: nat)
    requires
        n <= 0x1_0000_0000_0000_0000,
    ensures
        rounded(100 * n, unit_size(unit_of(n))) <= 0xffff_ffff_ffff_ffff,
{
    let size = unit_size(unit_of(n));
    assert(100 * n / size <= 100 * 0x100_0000);
}

} // verus!

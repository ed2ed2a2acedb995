//! Assignments of directions to garments, as bit masks, and the search for the best one.
use crate::scalar::F32;
use vstd::arithmetic::div_mod::lemma_div_denominator;
use vstd::arithmetic::power2::lemma2_to64;
use vstd::arithmetic::power2::lemma_pow2_pos;
use vstd::arithmetic::power2::lemma_pow2_strictly_increases;
use vstd::arithmetic::power2::lemma_pow2_unfold;
use vstd::arithmetic::power2::pow2;
use vstd::prelude::*;

verus! {

/// Bit `k` of a mask.
pub open spec fn bit(mask: nat, k: nat) -> bool
    decreases k,
{
    if k == 0 {
        mask % 2 == 1
    } else {
        bit(mask / 2, (k - 1) as nat)
    }
}

/// The lowest `n` bits of a mask.
pub open spec fn bits(mask: nat, n: nat) -> Seq<bool> {
    Seq::new(n, |k: int| bit(mask, k as nat))
}

/// The mask with the given bits.
pub open spec fn mask_of(directions: Seq<bool>) -> nat
    decreases directions.len(),
{
    if directions.len() == 0 {
        0
    } else {
        (if directions[0] {
            1nat
        } else {
            0nat
        }) + 2 * mask_of(directions.drop_first())
    }
}

/// A mask holds the bits that it was made of.
pub proof fn lemma_mask_of(directions: Seq<bool>)
    ensures
        mask_of(directions) < pow2(directions.len()),
        bits(mask_of(directions), directions.len()) == directions,
    decreases directions.len(),
{
    lemma2_to64();
    let n = directions.len();
    let mask = mask_of(directions);
    if n > 0 {
        let rest = directions.drop_first();
        lemma_mask_of(rest);
        lemma_pow2_unfold(n);
        assert(mask / 2 == mask_of(rest));
        assert forall|k: int| 0 <= k < n implies bits(mask, n)[k] == directions[k] by {
            if k > 0 {
                assert(bits(mask_of(rest), rest.len())[k - 1] == rest[k - 1]);
            }
        }
    }
    assert(bits(mask, n) =~= directions);
}

/// Masks of `n` bits with the same bits are the same.
pub proof fn lemma_bits_injective(a: nat, b: nat, n: nat)
    requires
        a < pow2(n),
        b < pow2(n),
        bits(a, n) == bits(b, n),
    ensures
        a == b,
    decreases n,
{
    lemma2_to64();
    if n > 0 {
        lemma_pow2_unfold(n);
        let k = (n - 1) as nat;
        assert forall|i: int| 0 <= i < n implies bit(a, i as nat) == #[trigger] bit(b, i as nat) by {
            assert(bits(a, n)[i] == bit(a, i as nat));
            assert(bits(b, n)[i] == bit(b, i as nat));
        }
        assert(bit(a, 0int as nat) == bit(b, 0int as nat));
        assert(a % 2 == b % 2);
        let (half_a, half_b) = (bits(a / 2, k), bits(b / 2, k));
        assert forall|i: int| 0 <= i < k implies #[trigger] half_a[i] == half_b[i] by {
            assert(bit(a, (i + 1) as nat) == bit(b, (i + 1) as nat));
            assert(half_a[i] == bit(a / 2, i as nat));
            assert(half_b[i] == bit(b / 2, i as nat));
        }
        assert(half_a =~= half_b);
        lemma_bits_injective(a / 2, b / 2, k);
    }
}

/// Bit `k` of a mask is the digit for 2 to the power `k` of its binary form.
pub proof fn lemma_bit_is_digit(mask: nat, k: nat)
    ensures
        bit(mask, k) <==> (mask / pow2(k)) % 2 == 1,
    decreases k,
{
    lemma2_to64();
    if k > 0 {
        let j = (k - 1) as nat;
        lemma_bit_is_digit(mask / 2, j);
        lemma_pow2_unfold(k);
        lemma_pow2_pos(j);
        lemma_div_denominator(mask as int, 2, pow2(j) as int);
        assert(2 * pow2(j) == pow2(k));
        assert(mask / pow2(k) == (mask / 2) / pow2(j));
    } else {
        assert(pow2(0) == 1);
        assert(mask / 1 == mask);
    }
}

/// The mask of an assignment: its binary digits are the directions, lowest first, and it has no
/// others.
pub proof fn lemma_mask_digits(directions: Seq<bool>, k: int)
    requires
        0 <= k < directions.len(),
    ensures
        mask_of(directions) < pow2(directions.len()),
        (mask_of(directions) / pow2(k as nat)) % 2 == 1 <==> directions[k],
{
    lemma_mask_of(directions);
    lemma_bit_is_digit(mask_of(directions), k as nat);
    assert(bits(mask_of(directions), directions.len())[k] == directions[k]);
}

/// Packs directions into a mask.
pub fn pack(directions: &Vec<bool>) -> (r: usize)
    requires
        directions.len() < 32,
    ensures
        r == mask_of(directions@),
        r < pow2(directions@.len()),
{
    let n: usize = directions.len();
    let mut mask: usize = 0;
    let mut k: usize = n;
    assert(directions@.skip(n as int) =~= Seq::<bool>::empty());
    while k > 0
        invariant
            k <= n,
            n == directions.len(),
            n < 32,
            mask == mask_of(directions@.skip(k as int)),
        decreases k,
    {
        proof {
            let rest = directions@.skip(k as int);
            let more = directions@.skip(k - 1);
            assert(more.drop_first() =~= rest);
            assert(more[0] == directions@[k - 1]);
            lemma_mask_of(more);
            lemma2_to64();
            lemma_pow2_strictly_increases(more.len(), 32);
        }
        k = k - 1;
        mask = 2 * mask + if directions[k] {
            1
        } else {
            0
        };
    }
    proof {
        assert(directions@.skip(0) =~= directions@);
        lemma_mask_of(directions@);
    }
    mask
}

/// Unpacks the lowest `n` bits of a mask.
pub fn unpack(mask: usize, n: usize) -> (r: Vec<bool>)
    ensures
        r@ == bits(mask as nat, n as nat),
{
    let mut r: Vec<bool> = Vec::new();
    let mut rest: usize = mask;
    let mut k: usize = 0;
    while k < n
        invariant
            k <= n,
            r.len() == k,
            forall|i: int| 0 <= i < k ==> r[i] == bit(mask as nat, i as nat),
            forall|j: nat| #[trigger] bit(rest as nat, j) == bit(mask as nat, (j + k) as nat),
        decreases n - k,
    {
        let ghost was = rest;
        assert(bit(rest as nat, 0) == bit(mask as nat, k as nat));
        r.push(rest % 2 == 1);
        rest = rest / 2;
        k = k + 1;
        assert forall|j: nat| #[trigger] bit(rest as nat, j) == bit(mask as nat, (j + k) as nat) by {
            assert(bit(was as nat, j + 1) == bit(rest as nat, j));
        }
    }
    assert(r@ =~= bits(mask as nat, n as nat));
    r
}

/// The energy of an assignment, and the level below which another one counts as better.
#[derive(Debug, Clone, Copy)]
pub struct Energy {
    pub e: F32,
    pub floor: F32,
}

/// The best assignment found so far.
pub struct Best {
    pub mask: nat,
    pub energy: Energy,
}

/// Positive infinity, which nothing finite fails to improve on.
pub open spec fn no_energy() -> Energy {
    Energy { e: F32 { bits: 0x7f80_0000 }, floor: F32 { bits: 0x7f80_0000 } }
}

/// Whether assignment `mask` replaces the best one found so far: it lies below that one's
/// floor, or it is the current assignment and no worse.
pub open spec fn replaces(energy: Energy, is_current: bool, best: Energy) -> bool {
    energy.e.below(best.floor) || (is_current && energy.e.within(best.e))
}

/// The best of the first `n` assignments, looked at in rising order.
pub open spec fn scan(energies: Seq<Energy>, current: nat, n: nat) -> Best
    decreases n,
{
    if n == 0 {
        Best { mask: current, energy: no_energy() }
    } else {
        let best = scan(energies, current, (n - 1) as nat);
        if replaces(energies[n - 1], n - 1 == current, best.energy) {
            Best { mask: (n - 1) as nat, energy: energies[n - 1] }
        } else {
            best
        }
    }
}

/// Finds the best assignment, given the energy of each.
pub fn best_assignment(energies: &Vec<Energy>, current: usize) -> (r: usize)
    requires
        current < energies.len(),
    ensures
        r == scan(energies@, current as nat, energies@.len()).mask,
        r < energies.len(),
{
    let mut best: usize = current;
    let mut energy = Energy { e: F32::infinity(), floor: F32::infinity() };
    let mut n: usize = 0;
    while n < energies.len()
        invariant
            n <= energies.len(),
            current < energies.len(),
            best < energies.len(),
            best == scan(energies@, current as nat, n as nat).mask,
            energy == scan(energies@, current as nat, n as nat).energy,
        decreases energies.len() - n,
    {
        let candidate: Energy = energies[n];
        if candidate.e.lt(energy.floor) || (n == current && candidate.e.le(energy.e)) {
            energy = candidate;
            best = n;
        }
        n = n + 1;
    }
    best
}

/// The energies are numbers, each floor lies no higher than its energy, and floors order as
/// energies do: this is what subtracting a constant yields.
pub open spec fn floors_follow(energies: Seq<Energy>) -> bool {
    &&& forall|i: int|
        0 <= i < energies.len() ==> !(#[trigger] energies[i]).e.nan() && !energies[i].floor.nan()
            && energies[i].floor.within(energies[i].e)
    &&& forall|i: int, j: int|
        0 <= i < energies.len() && 0 <= j < energies.len() && (#[trigger] energies[i]).e.within(
            (#[trigger] energies[j]).e,
        ) ==> energies[i].floor.within(energies[j].floor)
}

proof fn lemma_scan(energies: Seq<Energy>, current: nat, n: nat)
    requires
        floors_follow(energies),
        current < energies.len(),
        n <= energies.len(),
    ensures
        ({
            let best = scan(energies, current, n);
            &&& best.mask == current && best.energy == no_energy() || best.mask < n && best.energy
                == energies[best.mask as int]
            &&& forall|i: int|
                0 <= i < n ==> !(#[trigger] energies[i]).e.below(best.energy.floor)
        }),
    decreases n,
{
    if n > 0 {
        lemma_scan(energies, current, (n - 1) as nat);
        let before = scan(energies, current, (n - 1) as nat);
        let best = scan(energies, current, n);
        let here = energies[n - 1];
        if replaces(here, n - 1 == current, before.energy) {
            assert(here.e.within(before.energy.e));
            assert(here.floor.within(before.energy.floor));
        }
        assert forall|i: int| 0 <= i < n implies !(#[trigger] energies[i]).e.below(
            best.energy.floor,
        ) by {
            if i < n - 1 {
                assert(!energies[i].e.below(before.energy.floor));
            }
        }
    }
}

/// The assignment found is optimal: no assignment has an energy below its floor.
pub proof fn lemma_best_is_optimal(energies: Seq<Energy>, current: nat)
    requires
        floors_follow(energies),
        current < energies.len(),
    ensures
        ({
            let best = scan(energies, current, energies.len()).mask as int;
            &&& 0 <= best < energies.len()
            &&& forall|i: int|
                0 <= i < energies.len() ==> !(#[trigger] energies[i]).e.below(energies[best].floor)
        }),
{
    lemma_scan(energies, current, energies.len());
    let best = scan(energies, current, energies.len());
    if best.energy == no_energy() {
        lemma_scan_infinite(energies, current, energies.len());
    }
}

proof fn lemma_scan_infinite(energies: Seq<Energy>, current: nat, n: nat)
    requires
        floors_follow(energies),
        current < energies.len(),
        n <= energies.len(),
        scan(energies, current, n).energy == no_energy(),
    ensures
        forall|i: int|
            0 <= i < n ==> !(#[trigger] energies[i]).e.below(energies[current as int].floor),
{
    lemma_scan(energies, current, n);
    assert forall|i: int| 0 <= i < n implies !(#[trigger] energies[i]).e.below(
        energies[current as int].floor,
    ) by {
        assert(!energies[i].e.below(no_energy().floor));
    }
}

proof fn lemma_scan_improves(energies: Seq<Energy>, current: nat, n: nat)
    requires
        floors_follow(energies),
        current < energies.len(),
        n <= energies.len(),
        scan(energies, current, n).mask != current,
    ensures
        ({
            let best = scan(energies, current, n);
            &&& best.mask < n
            &&& best.energy == energies[best.mask as int]
            &&& forall|i: int|
                0 <= i < best.mask ==> best.energy.e.below((#[trigger] energies[i]).e)
            &&& current < n ==> best.energy.e.below(energies[current as int].e)
        }),
    decreases n,
{
    if n > 0 {
        let before = scan(energies, current, (n - 1) as nat);
        let here = energies[n - 1];
        lemma_scan(energies, current, (n - 1) as nat);
        if replaces(here, n - 1 == current, before.energy) {
            assert forall|i: int| 0 <= i < n - 1 implies here.e.below((#[trigger] energies[i]).e) by {
                assert(!energies[i].e.below(before.energy.floor));
            }
            if current < n - 1 {
                assert(here.e.below(energies[current as int].e));
            }
        } else {
            lemma_scan_improves(energies, current, (n - 1) as nat);
        }
    }
}

/// Directions change only for the better: an assignment other than the current one has an energy
/// below that of the current one, and below that of every assignment before it; of the others
/// none lies below its floor.
pub proof fn lemma_change_improves(energies: Seq<Energy>, current: nat)
    requires
        floors_follow(energies),
        current < energies.len(),
    ensures
        ({
            let best = scan(energies, current, energies.len()).mask as int;
            best != current ==> {
                &&& 0 <= best < energies.len()
                &&& energies[best].e.rank() < energies[current as int].e.rank()
                &&& forall|i: int|
                    0 <= i < best ==> energies[best].e.rank() < (#[trigger] energies[i]).e.rank()
                &&& forall|i: int|
                    0 <= i < energies.len() ==> (#[trigger] energies[i]).e.rank()
                        >= energies[best].floor.rank()
            }
        }),
{
    let best = scan(energies, current, energies.len()).mask as int;
    if best != current {
        lemma_scan_improves(energies, current, energies.len());
        lemma_best_is_optimal(energies, current);
        assert forall|i: int| 0 <= i < energies.len() implies (#[trigger] energies[i]).e.rank()
            >= energies[best].floor.rank() by {
            assert(!energies[i].e.below(energies[best].floor));
        }
    }
}

proof fn lemma_scan_any(energies: Seq<Energy>, current: nat, n: nat)
    requires
        current < energies.len(),
        n <= energies.len(),
    ensures
        ({
            let best = scan(energies, current, n);
            &&& best.mask == current && best.energy == no_energy() && (forall|i: int|
                0 <= i < n ==> !(#[trigger] energies[i]).e.below(no_energy().floor)) && (current < n
                ==> energies[current as int].e.nan()) || {
                &&& best.mask < n
                &&& best.energy == energies[best.mask as int]
                &&& !best.energy.e.nan()
                &&& best.mask != current ==> best.energy.e.rank() < 0x7f80_0000
                &&& forall|i: int|
                    best.mask < i < n ==> !(#[trigger] energies[i]).e.below(best.energy.floor)
                &&& best.mask < current < n ==> !energies[current as int].e.within(best.energy.e)
            }
        }),
    decreases n,
{
    if n > 0 {
        lemma_scan_any(energies, current, (n - 1) as nat);
    }
}

/// Whatever the energies are, and whether or not they are numbers: an assignment that is not the
/// current one is chosen only for an energy that is a finite number or minus infinity; once one is
/// chosen, no later one lies below its floor, and the current one, if it comes later, is worse or
/// no number. Where the energy of the chosen assignment is no number, it is the current one, and
/// no assignment has an energy below infinity.
pub proof fn lemma_choice_among_any(energies: Seq<Energy>, current: nat, i: int)
    requires
        current < energies.len(),
        0 <= i < energies.len(),
    ensures
        ({
            let best = scan(energies, current, energies.len()).mask as int;
            &&& 0 <= best < energies.len()
            &&& best != current ==> !energies[best].e.nan() && energies[best].e.rank() < 0x7f80_0000
            &&& energies[best].e.nan() ==> best == current && (energies[i].e.nan()
                || energies[i].e.rank() >= 0x7f80_0000)
            &&& !energies[best].e.nan() && best < i && !energies[i].e.nan()
                && !energies[best].floor.nan() ==> energies[i].e.rank()
                >= energies[best].floor.rank()
            &&& best < current ==> energies[current as int].e.nan() || energies[best].e.rank()
                < energies[current as int].e.rank()
        }),
{
    lemma_scan_any(energies, current, energies.len());
    let best = scan(energies, current, energies.len());
    if energies[best.mask as int].e.nan() {
        assert(!energies[i].e.below(no_energy().floor));
    } else if best.mask < i {
        assert(!energies[i].e.below(energies[best.mask as int].floor));
    }
}

/// The current assignment wins no tie that is none: where an assignment before it is below the
/// floor of every earlier one, none from there up to the current one is below its floor, and the
/// current one's energy is higher, the current one is given up.
pub proof fn lemma_worse_current_given_up(energies: Seq<Energy>, current: nat, i: int)
    requires
        floors_follow(energies),
        0 <= i < current < energies.len(),
        energies[i].e.rank() < 0x7f80_0000,
        forall|j: int|
            0 <= j < i ==> energies[i].e.rank() < (#[trigger] energies[j]).floor.rank(),
        forall|j: int|
            i < j < current ==> (#[trigger] energies[j]).e.rank() >= energies[i].floor.rank(),
        energies[i].e.rank() < energies[current as int].e.rank(),
    ensures
        scan(energies, current, energies.len()).mask != current,
{
    lemma_scan_reaches(energies, current, i, current);
    lemma_scan_past_current(energies, current, energies.len());
}

proof fn lemma_scan_reaches(energies: Seq<Energy>, current: nat, i: int, n: nat)
    requires
        floors_follow(energies),
        0 <= i < n <= current < energies.len(),
        energies[i].e.rank() < 0x7f80_0000,
        forall|j: int|
            0 <= j < i ==> energies[i].e.rank() < (#[trigger] energies[j]).floor.rank(),
        forall|j: int|
            i < j < current ==> (#[trigger] energies[j]).e.rank() >= energies[i].floor.rank(),
    ensures
        scan(energies, current, n).mask == i,
        scan(energies, current, n).energy == energies[i],
    decreases n,
{
    if n == i + 1 {
        lemma_scan(energies, current, i as nat);
        let before = scan(energies, current, i as nat);
        if before.energy != no_energy() {
            assert(energies[i].e.rank() < energies[before.mask as int].floor.rank());
        }
    } else {
        lemma_scan_reaches(energies, current, i, (n - 1) as nat);
        assert(energies[n - 1].e.rank() >= energies[i].floor.rank());
    }
}

proof fn lemma_scan_past_current(energies: Seq<Energy>, current: nat, n: nat)
    requires
        floors_follow(energies),
        current < n <= energies.len(),
        scan(energies, current, current).mask != current,
        scan(energies, current, current).energy.e.below(energies[current as int].e),
    ensures
        scan(energies, current, n).mask != current,
    decreases n,
{
    if n == current + 1 {
        lemma_scan(energies, current, current);
    } else {
        lemma_scan_past_current(energies, current, (n - 1) as nat);
    }
}

/// The current assignment is kept wherever it is at least as good as every other one.
pub proof fn lemma_optimal_current_kept(energies: Seq<Energy>, current: nat)
    requires
        floors_follow(energies),
        current < energies.len(),
        forall|i: int|
            0 <= i < energies.len() ==> energies[current as int].e.within((#[trigger] energies[i]).e),
    ensures
        scan(energies, current, energies.len()).mask == current,
{
    lemma_scan_current(energies, current, energies.len());
}

proof fn lemma_scan_current(energies: Seq<Energy>, current: nat, n: nat)
    requires
        floors_follow(energies),
        current < energies.len(),
        n <= energies.len(),
        forall|i: int|
            0 <= i < energies.len() ==> energies[current as int].e.within((#[trigger] energies[i]).e),
    ensures
        n > current ==> scan(energies, current, n).mask == current && scan(
            energies,
            current,
            n,
        ).energy == energies[current as int],
    decreases n,
{
    if n > current {
        lemma_scan_current(energies, current, (n - 1) as nat);
        lemma_scan(energies, current, (n - 1) as nat);
        let before = scan(energies, current, (n - 1) as nat);
        if n - 1 == current {
            if before.energy != no_energy() {
                assert(energies[current as int].e.within(energies[before.mask as int].e));
            }
        } else {
            assert(energies[current as int].e.within(energies[n - 1].e));
        }
    }
}

} // verus!

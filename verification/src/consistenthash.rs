//! Consistent hashing for selecting backends: a Maglev-style lookup table
//! built from per-backend permutations over a prime-sized slot array.

use vstd::prelude::*;
use vstd::arithmetic::div_mod::{
    lemma_mod_division_less_than_divisor, lemma_small_mod, lemma_sub_mod_noop,
};
use vstd::seq_lib::*;
use vstd::set_lib::{lemma_int_range, lemma_len_subset, set_int_range};
use crate::arith::{gcd, lemma_coprime_divides, lemma_prime_coprime};
use crate::primes::{self, is_prime, largest_prime_le};
use std::hash::{Hash, Hasher};
use siphasher::sip::SipHasher;

verus! {

/// A routing target: a stable name, a live flag, an IPv4 target address
/// (big-endian `u32`), and the backend's permutation over the table slots.
pub struct Backend {
    pub name: String,
    /// Should this backend receive new traffic.
    pub live: bool,
    /// The target IPv4 address, as a 32-bit value in network order.
    pub target: u32,
    pub permutation: Vec<u32>,
}

impl Backend {
    pub fn new(name: &str, target: u32) -> (b: Backend)
        ensures
            b.name@ == name@,
            b.live == true,
            b.target == target,
            b.permutation@ == Seq::<u32>::empty(),
    {
        Backend { name: name.to_owned(), live: true, target, permutation: Vec::new() }
    }
}

/// The slot that a permutation with the given offset and skip claims in
/// round `i`.
pub open spec fn perm_value(offset: nat, skip: nat, pool: nat, i: nat) -> nat {
    (offset + i * skip) % pool
}

/// The whole permutation sequence for one offset/skip pair.
pub open spec fn perm_seq(offset: nat, skip: nat, pool: nat) -> Seq<u32> {
    Seq::new(pool, |i: int| perm_value(offset, skip, pool, i as nat) as u32)
}

/// Generate permutations for a given offset, skip, pool.
pub fn permutations(offset: u32, skip: u32, pool_size: u32) -> (res: Vec<u32>)
    requires
        pool_size > 0,
    ensures
        res@ == perm_seq(offset as nat, skip as nat, pool_size as nat),
{
    let mut res: Vec<u32> = Vec::new();
    let pool = pool_size as u64;
    let mut pos: u32 = 0;
    while pos < pool_size
        invariant
            pool == pool_size,
            pool_size > 0,
            pos <= pool_size,
            res@.len() == pos,
            forall|i: int|
                0 <= i < pos ==> res@[i] == perm_seq(offset as nat, skip as nat, pool_size as nat)[i],
        decreases pool_size - pos,
    {
        proof {
            assert(pos as u64 * skip as u64 <= 0xFFFF_FFFFu64 * 0xFFFF_FFFFu64)
                by (nonlinear_arith)
                requires
                    pos <= 0xFFFF_FFFFu32,
                    skip <= 0xFFFF_FFFFu32,
            ;
            lemma_mod_division_less_than_divisor(
                offset as int + pos as int * skip as int,
                pool_size as int,
            );
        }
        let v = ((offset as u64 + pos as u64 * skip as u64) % pool) as u32;
        res.push(v);
        pos = pos + 1;
    }
    proof {
        assert(res@ =~= perm_seq(offset as nat, skip as nat, pool_size as nat));
    }
    res
}

/// Slot `v` is claimed by some round of the permutation.
pub open spec fn perm_covers(offset: nat, skip: nat, pool: nat, v: nat) -> bool {
    exists|i: nat| i < pool && #[trigger] perm_value(offset, skip, pool, i) == v
}

/// The permutation visits every slot exactly once whenever the skip and the
/// pool size are coprime: no two rounds claim the same slot, and every slot
/// is claimed by some round.
pub proof fn lemma_permutations_bijective(offset: nat, skip: nat, pool: nat)
    requires
        0 < pool,
        gcd(skip, pool) == 1,
    ensures
        forall|i: nat, j: nat|
            i < pool && j < pool && i != j ==> #[trigger] perm_value(offset, skip, pool, i)
                != #[trigger] perm_value(offset, skip, pool, j),
        forall|v: nat| v < pool ==> #[trigger] perm_covers(offset, skip, pool, v),
{
    // injectivity
    assert forall|i: nat, j: nat|
        i < pool && j < pool && i != j implies #[trigger] perm_value(offset, skip, pool, i)
        != #[trigger] perm_value(offset, skip, pool, j) by {
        let lo = if i < j { i } else { j };
        let hi = if i < j { j } else { i };
        if perm_value(offset, skip, pool, lo) == perm_value(offset, skip, pool, hi) {
            let a = offset as int + lo as int * skip as int;
            let b = offset as int + hi as int * skip as int;
            lemma_sub_mod_noop(b, a, pool as int);
            lemma_small_mod(0, pool);
            assert(b - a == (hi - lo) * skip as int) by (nonlinear_arith)
                requires
                    a == offset as int + lo as int * skip as int,
                    b == offset as int + hi as int * skip as int,
            ;
            assert((skip * (hi - lo) as nat) as int == (hi - lo) * skip as int)
                by (nonlinear_arith)
                requires
                    lo < hi,
            ;
            lemma_coprime_divides(skip, pool, (hi - lo) as nat);
            lemma_small_mod((hi - lo) as nat, pool);
            assert(false);
        }
    }
    // surjectivity, by cardinality of the claimed slots
    let s = Seq::new(pool, |i: int| perm_value(offset, skip, pool, i as nat) as int);
    assert forall|i: int| 0 <= i < s.len() implies 0 <= #[trigger] s[i] < pool by {
        lemma_mod_division_less_than_divisor(
            offset as int + i * skip as int,
            pool as int,
        );
    }
    assert(s.no_duplicates());
    s.unique_seq_to_set();
    let range = set_int_range(0, pool as int);
    lemma_int_range(0, pool as int);
    assert(s.to_set().subset_of(range));
    lemma_len_subset(s.to_set(), range);
    assert forall|v: nat| v < pool implies #[trigger] perm_covers(offset, skip, pool, v) by {
        if !range.contains(v as int) {
            assert(false);
        }
        if !s.to_set().contains(v as int) {
            assert(s.to_set().subset_of(range.remove(v as int)));
            lemma_len_subset(s.to_set(), range.remove(v as int));
            assert(range.remove(v as int).len() == pool - 1);
            assert(false);
        }
        let i = choose|i: int| 0 <= i < s.len() && s[i] == v as int;
        assert(perm_value(offset, skip, pool, i as nat) == v);
    }
}

/// The pair of 64-bit seeds that SipHash derives from a backend name: the
/// digest of the name alone, then the digest after the fixed tag
/// `"differenthash"` has been fed into the same hasher state.
pub uninterp spec fn backend_seeds_of(name: Seq<char>) -> (u64, u64);

/// Relies on siphasher's `SipHasher` (SipHash-2-4 with a zero key) and on
/// `Hash for str`: the two digests depend on the name's characters alone,
/// so equal names give equal seed pairs in every process.
#[verifier::external_body]
fn backend_seeds(name: &str) -> (r: (u64, u64))
    ensures
        r == backend_seeds_of(name@),
{
    let mut s = SipHasher::new();
    name.hash(&mut s);
    let first = s.finish();
    "differenthash".hash(&mut s);
    (first, s.finish())
}

/// The table offset a backend name hashes to.
pub open spec fn spec_offset(name: Seq<char>, pool: nat) -> nat {
    backend_seeds_of(name).0 as nat % pool
}

/// The skip a backend name hashes to; always in `[1, pool)` for `pool >= 2`.
pub open spec fn spec_skip(name: Seq<char>, pool: nat) -> nat {
    backend_seeds_of(name).1 as nat % (pool - 1) as nat + 1
}

/// The canonical permutation of a backend name for a table of `pool` slots.
pub open spec fn backend_perm(name: Seq<char>, pool: nat) -> Seq<u32> {
    perm_seq(spec_offset(name, pool), spec_skip(name, pool), pool)
}

/// The number of entries of `s` that equal `x`.
pub open spec fn count_val(s: Seq<u32>, x: u32) -> nat
    decreases s.len(),
{
    if s.len() == 0 {
        0
    } else {
        count_val(s.drop_last(), x) + if s.last() == x {
            1nat
        } else {
            0nat
        }
    }
}

/// No count exceeds the sequence's length.
pub proof fn lemma_count_val_le_len(s: Seq<u32>, x: u32)
    ensures
        count_val(s, x) <= s.len(),
    decreases s.len(),
{
    if s.len() > 0 {
        lemma_count_val_le_len(s.drop_last(), x);
    }
}

/// How one update moves the counts.
pub proof fn lemma_count_val_update(s: Seq<u32>, i: int, v: u32, x: u32)
    requires
        0 <= i < s.len(),
    ensures
        count_val(s.update(i, v), x) == count_val(s, x) - (if s[i] == x {
            1int
        } else {
            0int
        }) + (if v == x {
            1int
        } else {
            0int
        }),
    decreases s.len(),
{
    let t = s.update(i, v);
    if i == s.len() - 1 {
        assert(t.drop_last() =~= s.drop_last());
        assert(t.last() == v);
    } else {
        assert(t.drop_last() =~= s.drop_last().update(i, v));
        assert(t.last() == s.last());
        lemma_count_val_update(s.drop_last(), i, v, x);
    }
}

/// A count is zero exactly when no entry has the value.
pub proof fn lemma_count_val_zero(s: Seq<u32>, x: u32)
    ensures
        (count_val(s, x) == 0) <==> (forall|k: int| 0 <= k < s.len() ==> s[k] != x),
    decreases s.len(),
{
    if s.len() > 0 {
        lemma_count_val_zero(s.drop_last(), x);
        assert(forall|k: int| 0 <= k < s.len() - 1 ==> s.drop_last()[k] == s[k]);
        assert(s.last() == s[s.len() - 1]);
    }
}

/// A sequence made of one value counts it everywhere.
pub proof fn lemma_count_val_uniform(s: Seq<u32>, x: u32)
    requires
        forall|k: int| 0 <= k < s.len() ==> s[k] == x,
    ensures
        count_val(s, x) == s.len(),
    decreases s.len(),
{
    if s.len() > 0 {
        assert(forall|k: int| 0 <= k < s.len() - 1 ==> s.drop_last()[k] == s[k]);
        lemma_count_val_uniform(s.drop_last(), x);
    }
}

/// Slot value `v` occurs somewhere in `perm`.
pub open spec fn slot_covered(perm: Seq<u32>, v: u32) -> bool {
    exists|j: int| 0 <= j < perm.len() && #[trigger] perm[j] == v
}

/// `perm` is a permutation of the slot indices of an `m`-sized table.
pub open spec fn is_slot_permutation(perm: Seq<u32>, m: nat) -> bool {
    &&& perm.len() == m
    &&& forall|j: int| 0 <= j < perm.len() ==> (#[trigger] perm[j]) < m
    &&& forall|v: u32| v < m ==> #[trigger] slot_covered(perm, v)
}

/// The canonical backend permutation covers every slot of a prime-sized
/// table, because its skip is coprime to the table size.
pub proof fn lemma_backend_perm_is_permutation(name: Seq<char>, m: nat)
    requires
        is_prime(m),
    ensures
        is_slot_permutation(backend_perm(name, m), m),
{
    let offset = spec_offset(name, m);
    let skip = spec_skip(name, m);
    let perm = backend_perm(name, m);
    lemma_mod_division_less_than_divisor(backend_seeds_of(name).1 as int, m as int - 1);
    assert(1 <= skip < m);
    lemma_prime_coprime(skip, m);
    lemma_permutations_bijective(offset, skip, m);
    assert forall|j: int| 0 <= j < perm.len() implies (#[trigger] perm[j]) < m by {
        lemma_mod_division_less_than_divisor(offset as int + j * skip as int, m as int);
    }
    assert forall|v: u32| v < m implies #[trigger] slot_covered(perm, v) by {
        assert(perm_covers(offset, skip, m, v as nat));
        let i = choose|i: nat| i < m && #[trigger] perm_value(offset, skip, m, i) == v as nat;
        assert(perm[i as int] == v);
    }
}

/// The working state of the Maglev fill: the partially assigned lookup
/// table and each backend's position within its own permutation.
pub struct FillState {
    pub lookup: Seq<u32>,
    pub next: Seq<nat>,
}

/// The first position at or after `j` whose slot is still unassigned.
pub open spec fn scan_spec(perm: Seq<u32>, lookup: Seq<u32>, j: nat) -> nat
    decreases perm.len() - j,
{
    if j >= perm.len() {
        j
    } else if perm[j as int] < lookup.len() && lookup[perm[j as int] as int] == u32::MAX {
        j
    } else {
        scan_spec(perm, lookup, j + 1)
    }
}

/// One backend's turn in a round-robin pass: skip it when not live, else
/// claim the first unassigned slot of its permutation.
pub open spec fn fill_one(st: FillState, perms: Seq<Seq<u32>>, live: Seq<bool>, i: int) -> FillState {
    if !live[i] {
        st
    } else {
        let j = scan_spec(perms[i], st.lookup, st.next[i]);
        if j >= perms[i].len() {
            st
        } else {
            FillState {
                lookup: st.lookup.update(perms[i][j as int] as int, i as u32),
                next: st.next.update(i, (j + 1) as nat),
            }
        }
    }
}

/// A round-robin pass over the backends from `i` on, stopping as soon as
/// the table is full.
pub open spec fn fill_pass(st: FillState, perms: Seq<Seq<u32>>, live: Seq<bool>, i: int) -> FillState
    decreases live.len() - i,
{
    if i < 0 || i >= live.len() {
        st
    } else if count_val(st.lookup, u32::MAX) == 0 {
        st
    } else {
        fill_pass(fill_one(st, perms, live, i), perms, live, i + 1)
    }
}

/// Repeated round-robin passes; `fuel` bounds the number of rounds.
pub open spec fn fill_rounds(
    st: FillState,
    perms: Seq<Seq<u32>>,
    live: Seq<bool>,
    fuel: nat,
) -> FillState
    decreases fuel,
{
    if fuel == 0 || count_val(st.lookup, u32::MAX) == 0 {
        st
    } else {
        fill_rounds(fill_pass(st, perms, live, 0), perms, live, (fuel - 1) as nat)
    }
}

/// The fill's starting state: an all-sentinel table and zeroed positions.
pub open spec fn init_fill_state(n: nat, m: nat) -> FillState {
    FillState { lookup: Seq::new(m, |k: int| u32::MAX), next: Seq::new(n, |k: int| 0nat) }
}

/// The lookup table the Maglev fill produces from the backends'
/// permutations and live flags, for a table of `m` slots.
pub open spec fn fill_table(perms: Seq<Seq<u32>>, live: Seq<bool>, m: nat) -> Seq<u32> {
    fill_rounds(init_fill_state(live.len(), m), perms, live, m).lookup
}

/// The view of an exec fill state.
pub open spec fn state_of(lookup: Seq<u32>, next: Seq<usize>) -> FillState {
    FillState { lookup, next: Seq::new(next.len(), |i: int| next[i] as nat) }
}

/// The live flags of a backend sequence.
pub open spec fn live_flags(backends: Seq<Backend>) -> Seq<bool> {
    Seq::new(backends.len(), |i: int| backends[i].live)
}

/// The permutation views of a backend sequence.
pub open spec fn perm_views(backends: Seq<Backend>) -> Seq<Seq<u32>> {
    Seq::new(backends.len(), |i: int| backends[i].permutation@)
}

/// The number of live flags set among the first `k`.
pub open spec fn live_upto(live: Seq<bool>, k: int) -> nat
    decreases k,
{
    if k <= 0 {
        0
    } else {
        live_upto(live, k - 1) + if live[k - 1] {
            1nat
        } else {
            0nat
        }
    }
}

/// The number of live backends.
pub open spec fn live_count(backends: Seq<Backend>) -> nat {
    live_upto(live_flags(backends), backends.len() as int)
}

/// Generate permutations for a given name and pool size.
pub fn permute_backend(name: &str, pool_size: u32) -> (res: Vec<u32>)
    requires
        pool_size >= 2,
    ensures
        res@ == backend_perm(name@, pool_size as nat),
{
    let seeds = backend_seeds(name);
    let offset = (seeds.0 % pool_size as u64) as u32;
    let skip = (seeds.1 % (pool_size as u64 - 1) + 1) as u32;
    proof {
        lemma_mod_division_less_than_divisor(seeds.0 as int, pool_size as int);
        lemma_mod_division_less_than_divisor(seeds.1 as int, pool_size as int - 1);
    }
    permutations(offset, skip, pool_size)
}

/// Build the lookup table for `backends` over `m` slots, by the Maglev
/// round-robin fill.
#[verifier::loop_isolation(false)]
#[verifier::rlimit(100)]
fn fill_lookup(backends: &Vec<Backend>, m: u32) -> (lookup: Vec<u32>)
    requires
        2 <= m,
        is_prime(m as nat),
        backends@.len() < u32::MAX,
        live_count(backends@) >= 1,
        forall|i: int|
            0 <= i < backends@.len() ==> #[trigger] backends@[i].permutation@ == backend_perm(
                backends@[i].name@,
                m as nat,
            ),
    ensures
        lookup@.len() == m,
        lookup@ == fill_table(perm_views(backends@), live_flags(backends@), m as nat),
        forall|k: int|
            0 <= k < lookup@.len() ==> (#[trigger] lookup@[k]) < backends@.len()
                && backends@[lookup@[k] as int].live,
        forall|i: int, j: int|
            0 <= i < backends@.len() && 0 <= j < backends@.len() && backends@[i].live
                && backends@[j].live ==> count_val(lookup@, i as u32) + 1 >= count_val(
                lookup@,
                j as u32,
            ),
        forall|i: int|
            0 <= i < backends@.len() && !backends@[i].live ==> count_val(lookup@, i as u32) == 0,
{
    let n = backends.len();
    let m_us = m as usize;
    let ghost perms = perm_views(backends@);
    let ghost live = live_flags(backends@);
    let ghost init = init_fill_state(n as nat, m as nat);
    proof {
        assert forall|i: int| 0 <= i < n implies is_slot_permutation(
            #[trigger] perms[i],
            m as nat,
        ) by {
            lemma_backend_perm_is_permutation(backends@[i].name@, m as nat);
        }
    }
    let mut lookup: Vec<u32> = Vec::new();
    while lookup.len() < m_us
        invariant
            lookup@.len() <= m,
            forall|k: int| 0 <= k < lookup@.len() ==> lookup@[k] == u32::MAX,
        decreases m_us - lookup@.len(),
    {
        lookup.push(u32::MAX);
    }
    let mut next: Vec<usize> = Vec::new();
    while next.len() < n
        invariant
            next@.len() <= n,
            forall|k: int| 0 <= k < next@.len() ==> next@[k] == 0,
        decreases n - next@.len(),
    {
        next.push(0);
    }
    proof {
        assert(lookup@ =~= init.lookup);
        assert(state_of(lookup@, next@).next =~= init.next);
        lemma_count_val_uniform(lookup@, u32::MAX);
        assert forall|k: int| 0 <= k < n implies #[trigger] count_val(lookup@, k as u32) == 0 by {
            lemma_count_val_zero(lookup@, k as u32);
        }
    }
    let mut allocated: usize = 0;
    let ghost mut rounds: nat = 0;
    loop
        invariant
            lookup@.len() == m,
            next@.len() == n,
            allocated < m,
            allocated + count_val(lookup@, u32::MAX) == m,
            rounds <= allocated,
            fill_rounds(init, perms, live, m as nat) == fill_rounds(
                state_of(lookup@, next@),
                perms,
                live,
                (m - rounds) as nat,
            ),
            forall|k: int|
                0 <= k < n ==> count_val(lookup@, k as u32) == (if live[k] {
                    rounds
                } else {
                    0nat
                }),
            forall|k: int|
                0 <= k < m && #[trigger] lookup@[k] != u32::MAX ==> lookup@[k] < n
                    && live[lookup@[k] as int],
            forall|ii: int| 0 <= ii < n ==> #[trigger] next@[ii] <= m,
            forall|ii: int, j: int|
                0 <= ii < n && 0 <= j < next@[ii] ==> lookup@[#[trigger] perms[ii][j] as int]
                    != u32::MAX,
        decreases m - allocated,
    {
        let ghost alloc_start = allocated as nat;
        let ghost rstate = state_of(lookup@, next@);
        proof {
            assert(count_val(rstate.lookup, u32::MAX) != 0);
            assert(fill_rounds(rstate, perms, live, (m - rounds) as nat) == fill_rounds(
                fill_pass(rstate, perms, live, 0),
                perms,
                live,
                (m - rounds - 1) as nat,
            ));
        }
        let mut i: usize = 0;
        while i < n
            invariant
                i <= n,
                lookup@.len() == m,
                next@.len() == n,
                allocated < m,
                allocated + count_val(lookup@, u32::MAX) == m,
                allocated == alloc_start + live_upto(live, i as int),
                fill_rounds(init, perms, live, m as nat) == fill_rounds(
                    fill_pass(state_of(lookup@, next@), perms, live, i as int),
                    perms,
                    live,
                    (m - rounds - 1) as nat,
                ),
                forall|k: int|
                    0 <= k < n ==> count_val(lookup@, k as u32) == (if live[k] {
                        rounds + (if k < i {
                            1nat
                        } else {
                            0nat
                        })
                    } else {
                        0nat
                    }),
                forall|k: int|
                    0 <= k < m && #[trigger] lookup@[k] != u32::MAX ==> lookup@[k] < n
                        && live[lookup@[k] as int],
                forall|ii: int| 0 <= ii < n ==> #[trigger] next@[ii] <= m,
                forall|ii: int, j: int|
                    0 <= ii < n && 0 <= j < next@[ii] ==> lookup@[#[trigger] perms[ii][j] as int]
                        != u32::MAX,
            decreases n - i,
        {
            let ghost st0 = state_of(lookup@, next@);
            if backends[i].live {
                let mut j: usize = next[i];
                #[verifier::loop_isolation(true)]
                loop
                    invariant
                        i < n,
                        n == backends@.len(),
                        perms == perm_views(backends@),
                        is_slot_permutation(perms[i as int], m as nat),
                        lookup@.len() == m,
                        2 <= m,
                        allocated < m,
                        allocated + count_val(lookup@, u32::MAX) == m,
                        next@[i as int] <= j <= m,
                        scan_spec(perms[i as int], lookup@, j as nat) == scan_spec(
                            perms[i as int],
                            lookup@,
                            next@[i as int] as nat,
                        ),
                        forall|j2: int|
                            0 <= j2 < j ==> lookup@[#[trigger] perms[i as int][j2] as int]
                                != u32::MAX,
                    ensures
                        next@[i as int] <= j < m,
                        lookup@[perms[i as int][j as int] as int] == u32::MAX,
                        j as nat == scan_spec(perms[i as int], lookup@, next@[i as int] as nat),
                        forall|j2: int|
                            0 <= j2 < j ==> lookup@[#[trigger] perms[i as int][j2] as int]
                                != u32::MAX,
                    decreases m - j,
                {
                    proof {
                        lemma_count_val_zero(lookup@, u32::MAX);
                        let k = choose|k: int| 0 <= k < lookup@.len() && lookup@[k] == u32::MAX;
                        assert(slot_covered(perms[i as int], k as u32));
                        let jstar = choose|j2: int|
                            0 <= j2 < perms[i as int].len() && #[trigger] perms[i as int][j2]
                                == k as u32;
                        if jstar < j {
                            assert(lookup@[perms[i as int][jstar] as int] != u32::MAX);
                            assert(false);
                        }
                        assert(j < m);
                    }
                    let cand = backends[i].permutation[j];
                    if lookup[cand as usize] == u32::MAX {
                        break;
                    }
                    proof {
                        assert(scan_spec(perms[i as int], lookup@, j as nat) == scan_spec(
                            perms[i as int],
                            lookup@,
                            (j + 1) as nat,
                        ));
                    }
                    j = j + 1;
                }
                let cand = backends[i].permutation[j];
                let ghost lookup0 = lookup@;
                lookup[cand as usize] = i as u32;
                next[i] = j + 1;
                allocated = allocated + 1;
                proof {
                    lemma_count_val_update(lookup0, cand as int, i as u32, u32::MAX);
                    assert forall|k: int| 0 <= k < n implies count_val(lookup@, k as u32) == (
                    if live[k] {
                        rounds + (if k < i + 1 {
                            1nat
                        } else {
                            0nat
                        })
                    } else {
                        0nat
                    }) by {
                        lemma_count_val_update(lookup0, cand as int, i as u32, k as u32);
                    }
                    assert(state_of(lookup@, next@).lookup =~= st0.lookup.update(
                        perms[i as int][j as int] as int,
                        i as u32,
                    ));
                    assert(state_of(lookup@, next@).next =~= st0.next.update(
                        i as int,
                        (j + 1) as nat,
                    ));
                    assert(fill_one(st0, perms, live, i as int) == state_of(lookup@, next@));
                    assert(fill_pass(st0, perms, live, i as int) == fill_pass(
                        state_of(lookup@, next@),
                        perms,
                        live,
                        i as int + 1,
                    ));
                }
                if allocated == m_us {
                    proof {
                        let st1 = state_of(lookup@, next@);
                        assert(count_val(lookup@, u32::MAX) == 0);
                        assert(fill_pass(st1, perms, live, i as int + 1) == st1);
                        assert(fill_rounds(st1, perms, live, (m - rounds - 1) as nat) == st1);
                        assert(lookup@ == fill_table(perms, live, m as nat));
                        lemma_count_val_zero(lookup@, u32::MAX);
                        assert forall|a: int, b: int|
                            0 <= a < n && 0 <= b < n && backends@[a].live && backends@[b].live
                            implies count_val(lookup@, a as u32) + 1 >= count_val(
                            lookup@,
                            b as u32,
                        ) by {
                            assert(live[a] && live[b]);
                        }
                        assert forall|a: int| 0 <= a < n && !backends@[a].live
                            implies count_val(lookup@, a as u32) == 0 by {
                            assert(!live[a]);
                        }
                    }
                    return lookup;
                }
            } else {
                proof {
                    assert(fill_one(st0, perms, live, i as int) == st0);
                    assert(fill_pass(st0, perms, live, i as int) == fill_pass(
                        st0,
                        perms,
                        live,
                        i as int + 1,
                    ));
                }
            }
            i = i + 1;
        }
        proof {
            let stn = state_of(lookup@, next@);
            assert(fill_pass(stn, perms, live, n as int) == stn);
            assert(live_upto(live, n as int) >= 1);
            rounds = rounds + 1;
        }
    }
}

/// The consistent-hash table: an ordered vector of backends, and a lookup
/// vector of backend indices sized to the largest prime at or below one
/// hundred times the live backend count.
///
/// References into `backends` are held by `lookup` as offsets: the vector
/// never shrinks except by marking tail entries not live, repopulating, and
/// only then popping them.
pub struct ConsistentHash {
    pub backends: Vec<Backend>,
    pub lookup: Vec<u32>,
}

impl ConsistentHash {
    pub fn new() -> (c: ConsistentHash)
        ensures
            c.backends@ == Seq::<Backend>::empty(),
            c.lookup@ == Seq::<u32>::empty(),
    {
        ConsistentHash { backends: Vec::new(), lookup: Vec::new() }
    }

    /// The table is ready for routing: nonempty, and every slot holds a
    /// valid backend index.
    pub open spec fn wf(&self) -> bool {
        &&& self.lookup@.len() >= 1
        &&& forall|k: int|
            0 <= k < self.lookup@.len() ==> (#[trigger] self.lookup@[k]) < self.backends@.len()
    }

    /// The backend index a 64-bit flow hash routes to.
    pub open spec fn spec_route(&self, h: u64) -> int {
        self.lookup@[h as int % self.lookup@.len() as int] as int
    }

    /// Select the backend index for a 64-bit flow hash.
    pub fn route(&self, h: u64) -> (idx: usize)
        requires
            self.wf(),
        ensures
            idx == self.spec_route(h),
            idx < self.backends@.len(),
    {
        let m = self.lookup.len();
        proof {
            lemma_mod_division_less_than_divisor(h as int, m as int);
        }
        let slot = (h % m as u64) as usize;
        self.lookup[slot] as usize
    }

    /// Populate the lookup table based on the current backend settings.
    ///
    /// The table size is the largest prime at or below one hundred times
    /// the live backend count; stale permutations are recomputed; then the
    /// Maglev round-robin fill assigns every slot to a live backend, with
    /// the backends' shares differing by at most one.
    #[verifier::loop_isolation(false)]
    pub fn populate(&mut self)
        requires
            live_count(old(self).backends@) >= 1,
            old(self).backends@.len() < u32::MAX,
            100 * live_count(old(self).backends@) <= u32::MAX,
            200 * live_count(old(self).backends@) <= usize::MAX,
            forall|i: int|
                0 <= i < old(self).backends@.len() && (#[trigger] old(self).backends@[i].permutation@).len() == largest_prime_le(
                    100 * live_count(old(self).backends@),
                ) ==> old(self).backends@[i].permutation@ == backend_perm(
                    old(self).backends@[i].name@,
                    largest_prime_le(100 * live_count(old(self).backends@)),
                ),
        ensures
            final(self).backends@.len() == old(self).backends@.len(),
            forall|i: int|
                0 <= i < final(self).backends@.len() ==> (#[trigger] final(self).backends@[i]).name@
                    == old(self).backends@[i].name@ && final(self).backends@[i].live == old(self).backends@[i].live && final(self).backends@[i].target == old(self).backends@[i].target,
            final(self).lookup@.len() == largest_prime_le(100 * live_count(old(self).backends@)),
            is_prime(final(self).lookup@.len() as nat),
            forall|i: int|
                0 <= i < final(self).backends@.len() ==> (#[trigger] final(self).backends@[i]).permutation@ == backend_perm(
                    old(self).backends@[i].name@,
                    final(self).lookup@.len() as nat,
                ),
            final(self).lookup@ == fill_table(
                perm_views(final(self).backends@),
                live_flags(final(self).backends@),
                final(self).lookup@.len() as nat,
            ),
            forall|k: int|
                0 <= k < final(self).lookup@.len() ==> (#[trigger] final(self).lookup@[k]) < final(self).backends@.len() && final(self).backends@[final(self).lookup@[k] as int].live,
            forall|i: int, j: int|
                0 <= i < final(self).backends@.len() && 0 <= j < final(self).backends@.len()
                    && final(self).backends@[i].live && final(self).backends@[j].live
                    ==> count_val(final(self).lookup@, i as u32) + 1 >= count_val(
                    final(self).lookup@,
                    j as u32,
                ),
            forall|i: int|
                0 <= i < final(self).backends@.len() && !final(self).backends@[i].live
                    ==> count_val(final(self).lookup@, i as u32) == 0,
    {
        let ghost old_backends = old(self).backends@;
        let n = self.backends.len();
        // count the live backends
        let mut live_cnt: usize = 0;
        let mut b: usize = 0;
        while b < n
            invariant
                b <= n,
                live_cnt == live_upto(live_flags(self.backends@), b as int),
                live_cnt <= b,
            decreases n - b,
        {
            if self.backends[b].live {
                live_cnt = live_cnt + 1;
            }
            b = b + 1;
        }
        assert(live_cnt == live_count(self.backends@));
        // the table holds roughly one hundred slots per live backend
        let lookup_size = live_cnt * 100;
        let p = primes::primes(lookup_size);
        proof {
            assert(is_prime(2));
            assert(exists|i: int| 0 <= i < p@.len() && #[trigger] p@[i] as nat == 2);
        }
        let m = p[p.len() - 1];
        proof {
            assert forall|q: nat| is_prime(q) && q <= lookup_size implies q <= m as nat by {
                let qi = choose|qi: int| 0 <= qi < p@.len() && #[trigger] p@[qi] as nat == q;
                if qi < p@.len() - 1 {
                    assert(p@[qi] < p@[p@.len() - 1]);
                }
            }
            crate::primes::lemma_largest_prime_le_unique(lookup_size as nat, m as nat);
        }
        // refresh any permutation whose length no longer matches the table
        let m_us = m as usize;
        let mut b: usize = 0;
        while b < n
            invariant
                n == self.backends@.len(),
                self.backends@.len() == old_backends.len(),
                b <= n,
                2 <= m,
                forall|i: int|
                    0 <= i < n ==> (#[trigger] self.backends@[i]).name@ == old_backends[i].name@
                        && self.backends@[i].live == old_backends[i].live
                        && self.backends@[i].target == old_backends[i].target,
                forall|i: int|
                    0 <= i < b ==> (#[trigger] self.backends@[i]).permutation@ == backend_perm(
                        old_backends[i].name@,
                        m as nat,
                    ),
                forall|i: int|
                    b <= i < n ==> (#[trigger] self.backends@[i]).permutation@
                        == old_backends[i].permutation@,
            decreases n - b,
        {
            if self.backends[b].permutation.len() != m_us {
                let perm = permute_backend(self.backends[b].name.as_str(), m);
                self.backends[b].permutation = perm;
            }
            b = b + 1;
        }
        proof {
            assert(live_flags(self.backends@) =~= live_flags(old_backends));
            assert(live_count(self.backends@) == live_count(old_backends));
        }
        let table = fill_lookup(&self.backends, m);
        self.lookup = table;
    }
}

/// Determinism of the fill: the populated table is a function of the
/// backends' names and live flags alone, once every permutation is the
/// canonical one for its backend's name.
pub proof fn lemma_table_deterministic(a: Seq<Backend>, b: Seq<Backend>, m: nat)
    requires
        a.len() == b.len(),
        forall|i: int|
            0 <= i < a.len() ==> (#[trigger] a[i]).name@ == b[i].name@ && a[i].live == b[i].live,
        forall|i: int|
            0 <= i < a.len() ==> (#[trigger] a[i]).permutation@ == backend_perm(a[i].name@, m),
        forall|i: int|
            0 <= i < b.len() ==> (#[trigger] b[i]).permutation@ == backend_perm(b[i].name@, m),
    ensures
        fill_table(perm_views(a), live_flags(a), m) == fill_table(perm_views(b), live_flags(b), m),
{
    assert(perm_views(a) =~= perm_views(b));
    assert(live_flags(a) =~= live_flags(b));
}

} // verus!

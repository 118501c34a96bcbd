//! Building blocks of congruence closure: the store of gates and its table
//! of gates by hash, representatives of merged literals, the literal schedule, and
//! searches over sorted binary clauses and conditional equivalences.
use vstd::prelude::*;
use std::collections::VecDeque;
use crate::literal::{spec_not, lemma_xor_one};
use crate::seqs::{is_permutation, permuted};

verus! {

pub const AND_GATE: u32 = 0;
pub const XOR_GATE: u32 = 1;
pub const ITE_GATE: u32 = 2;

pub const LD_MAX_ARITY: u32 = 26;
pub const MAX_ARITY: u32 = 0x3ff_ffff;

pub const SIZE_NONCES: usize = 16;

/// The empty slot of the table of gates by hash.
pub const NO_GATE: u32 = 0xffff_ffff;
/// A slot whose gate was removed.
pub const REMOVED: u32 = 0xffff_fffe;

/// The largest gate hash table.
pub const MAX_HASH_TABLE_SIZE: u64 = 0x1_0000_0000;

pub const INVALID: u32 = 0xffff_ffff;

/// A gate: its left-hand side, hash, kind (`tag`), flags and right-hand
/// side literals (the first `arity` of `rhs`).
pub struct Gate {
    pub lhs: u32,
    pub hash: u32,
    pub tag: u32,
    pub garbage: bool,
    pub indexed: bool,
    pub marked: bool,
    pub shrunken: bool,
    pub arity: u32,
    pub rhs: Vec<u32>,
}

/// A pair of literals, such as a binary clause.
#[derive(Clone, Copy)]
pub struct LitPair {
    pub lits: [u32; 2],
}

/// The position and length of a literal's binary clauses.
#[derive(Clone, Copy)]
pub struct OffsetSize {
    pub offset: u32,
    pub size: u32,
}

/// A clause reference with the clause size.
#[derive(Clone, Copy)]
pub struct RefSize {
    pub ref_: u32,
    pub size: u32,
}

/// The state of congruence closure.
pub struct Closure {
    pub scheduled: Vec<bool>,
    pub occurrences: Vec<Vec<u32>>,
    pub garbage: Vec<u32>,
    pub lits: Vec<u32>,
    pub rhs: Vec<u32>,
    pub unsimplified: Vec<u32>,
    pub binaries: Vec<LitPair>,
    pub schedule: VecDeque<u32>,
    pub repr: Vec<u32>,
    pub hash_table: Vec<u32>,
    pub hash_entries: usize,
    pub nonces: [u64; 16],
    pub units: usize,
    pub negbincount: Vec<u32>,
    pub largecount: Vec<u32>,
    pub condbin: Vec<Vec<LitPair>>,
    pub condeq: Vec<Vec<LitPair>>,
    pub chain: Vec<u32>,
    pub gates: Vec<Gate>,
}

/// Empties the table of gates by hash.
pub fn reset_gate_hash_table(closure: &mut Closure)
    ensures
        final(closure).hash_table@.len() == 0,
        final(closure).hash_entries == 0,
        final(closure).gates@ == old(closure).gates@,
        final(closure).repr@ == old(closure).repr@,
{
    closure.hash_table = Vec::new();
    closure.hash_entries = 0;
}

/// Rotates a 64-bit word left by four bits.
pub open spec fn rotl4(h: u64) -> u64 {
    (h << 4u64) | (h >> 60u64)
}

/// The hash state after the first `k` literals: add the literal, multiply
/// by the next nonce (cycling from `tag`), rotate.
pub open spec fn hash_prefix(nonces: Seq<u64>, tag: int, lits: Seq<u32>, k: int) -> u64
    decreases k,
{
    if k <= 0 {
        0
    } else {
        let h = hash_prefix(nonces, tag, lits, k - 1);
        let n = (tag + k - 1) % (SIZE_NONCES as int);
        rotl4(h.wrapping_add(lits[k - 1] as u64).wrapping_mul(nonces[n]))
    }
}

/// The hash of a gate's kind and literals.
pub open spec fn lits_hash(nonces: Seq<u64>, tag: int, lits: Seq<u32>) -> u32 {
    let h = hash_prefix(nonces, tag, lits, lits.len() as int);
    (h ^ (h >> 32u64)) as u32
}

/// Hashes the literals of a gate of kind `tag`.
pub fn hash_lits(nonces: &[u64; 16], tag: u32, lits: &[u32]) -> (r: u32)
    requires
        (tag as int) < SIZE_NONCES,
    ensures
        r == lits_hash(nonces@, tag as int, lits@),
{
    let mut n: usize = tag as usize;
    let mut hash: u64 = 0;
    let mut i: usize = 0;
    while i < lits.len()
        invariant
            i <= lits@.len(),
            n < SIZE_NONCES,
            n == (tag + i) % (SIZE_NONCES as int),
            hash == hash_prefix(nonces@, tag as int, lits@, i as int),
            (tag as int) < SIZE_NONCES,
        decreases lits@.len() - i,
    {
        let l = lits[i];
        hash = hash.wrapping_add(l as u64);
        hash = hash.wrapping_mul(nonces[n]);
        n += 1;
        hash = (hash << 4) | (hash >> 60);
        if n == SIZE_NONCES {
            n = 0;
        }
        i += 1;
    }
    hash = hash ^ (hash >> 32);
    hash as u32
}

/// Reduces a hash into `[0, size)` through a power of two `size2` that is
/// at most twice `size`.
pub fn reduce_hash(hash: u32, size: usize, size2: usize) -> (r: usize)
    requires
        0 < size <= size2,
        size2 <= 2 * size,
    ensures
        r < size,
        r == (if (hash as usize & (size2 - 1) as usize) >= size {
            (hash as usize & (size2 - 1) as usize) - size
        } else {
            (hash as usize & (size2 - 1) as usize) as int
        }),
{
    let m: usize = size2 - 1;
    let h: usize = hash as usize;
    let mut res = h & m;
    proof {
        assert(h & m <= m) by (bit_vector);
    }
    if res >= size {
        res -= size;
    }
    res
}

/// Whether the table of gates by hash should grow: it is below the maximal size
/// and at least half full.
pub fn closure_hash_table_is_full(closure: &Closure) -> (r: bool)
    requires
        closure.hash_entries <= usize::MAX / 2,
    ensures
        r == (closure.hash_table@.len() != MAX_HASH_TABLE_SIZE && 2 * closure.hash_entries >= closure.hash_table@.len()),
{
    if closure.hash_table.len() as u64 == MAX_HASH_TABLE_SIZE {
        return false;
    }
    if 2 * closure.hash_entries < closure.hash_table.len() {
        return false;
    }
    true
}

/// Whether `gate` has kind `tag`, hash `hash` and the right-hand side
/// `lits[..size]`.
pub fn match_lits(gate: &Gate, tag: u32, hash: u32, size: usize, lits: &[u32]) -> (r: bool)
    requires
        gate.arity <= gate.rhs@.len(),
        size <= lits@.len(),
    ensures
        r == (gate.tag == tag && gate.hash == hash && gate.arity == size
            && gate.rhs@.take(gate.arity as int) == lits@.take(size as int)),
{
    if gate.tag != tag {
        return false;
    }
    if gate.hash != hash {
        return false;
    }
    if gate.arity as usize != size {
        return false;
    }
    let mut i: usize = 0;
    while i < size
        invariant
            i <= size,
            size == gate.arity,
            gate.arity <= gate.rhs@.len(),
            size <= lits@.len(),
            forall|j: int| 0 <= j < i ==> gate.rhs@[j] == lits@[j],
        decreases size - i,
    {
        if gate.rhs[i] != lits[i] {
            proof {
                assert(gate.rhs@.take(gate.arity as int)[i as int] != lits@.take(size as int)[i as int]);
            }
            return false;
        }
        i += 1;
    }
    assert(gate.rhs@.take(gate.arity as int) =~= lits@.take(size as int));
    true
}

/// The parity of the signs of the first `k` literals.
pub open spec fn parity_prefix(lits: Seq<u32>, k: int) -> u32
    decreases k,
{
    if k <= 0 { 0 } else { parity_prefix(lits, k - 1) ^ (lits[k - 1] & 1) }
}

/// The parity of the signs of `lits`.
pub fn parity_lits(lits: &[u32]) -> (r: u32)
    ensures
        r == parity_prefix(lits@, lits@.len() as int),
{
    let mut res: u32 = 0;
    let mut i: usize = 0;
    while i < lits.len()
        invariant
            i <= lits@.len(),
            res == parity_prefix(lits@, i as int),
        decreases lits@.len() - i,
    {
        res = res ^ (lits[i] & 1);
        i += 1;
    }
    res
}

/// Advances the signs of `lits`, read as a binary counter with the first
/// literal least significant: negative literals flip until and including
/// the first positive one.
pub fn inc_lits(lits: &mut [u32])
    ensures
        final(lits)@.len() == old(lits)@.len(),
        forall|j: int| 0 <= j < old(lits)@.len() ==> #[trigger] final(lits)@[j] == (if forall|k: int|
            0 <= k < j ==> old(lits)@[k] % 2 == 1 {
            old(lits)@[j] ^ 1
        } else {
            old(lits)@[j]
        }),
{
    let mut carry = true;
    let mut i: usize = 0;
    let n = lits.len();
    while carry && i != n
        invariant
            n == lits@.len(),
            lits@.len() == old(lits)@.len(),
            i <= n,
            carry == (forall|k: int| 0 <= k < i ==> old(lits)@[k] % 2 == 1),
            forall|k: int| 0 <= k < i - 1 ==> old(lits)@[k] % 2 == 1,
            forall|j: int| 0 <= j < i ==> #[trigger] lits@[j] == old(lits)@[j] ^ 1,
            forall|j: int| i <= j < n ==> #[trigger] lits@[j] == old(lits)@[j],
        decreases n - i,
    {
        let l = lits[i];
        let not_lit = l ^ 1;
        proof {
            lemma_xor_one(l);
        }
        carry = (not_lit & 1) == 0;
        proof {
            assert((((l ^ 1u32) & 1u32) == 0u32) == (l % 2 == 1)) by (bit_vector);
        }
        lits[i] = not_lit;
        i += 1;
    }
    proof {
        assert forall|j: int| 0 <= j < n implies #[trigger] lits@[j] == (if forall|k: int|
            0 <= k < j ==> old(lits)@[k] % 2 == 1 {
            old(lits)@[j] ^ 1
        } else {
            old(lits)@[j]
        }) by {
            if j >= i {
                assert(!carry);
                let k = choose|k: int| 0 <= k < i && !(old(lits)@[k] % 2 == 1);
                assert(k < j);
            }
        }
    }
}

/// Representatives point to themselves or to smaller literals.
pub open spec fn repr_ok(repr: Seq<u32>) -> bool {
    forall|l: int| 0 <= l < repr.len() ==> #[trigger] repr[l] <= l
}

/// The representative of `lit`: follow `repr` to a literal that is its own
/// representative.
pub open spec fn repr_of(repr: Seq<u32>, lit: int) -> int
    decreases lit,
{
    if 0 <= lit < repr.len() && repr[lit] < lit {
        repr_of(repr, repr[lit] as int)
    } else {
        lit
    }
}

/// The representative of `lit`.
pub fn find_repr(closure: &Closure, lit: u32) -> (r: u32)
    requires
        repr_ok(closure.repr@),
        (lit as int) < closure.repr@.len(),
    ensures
        r == repr_of(closure.repr@, lit as int),
{
    let repr = &closure.repr;
    let mut res = lit;
    let mut next = repr[res as usize];
    while res != next
        invariant
            repr_ok(repr@),
            (res as int) < repr@.len(),
            next == repr@[res as int],
            repr_of(repr@, lit as int) == repr_of(repr@, res as int),
        decreases res,
    {
        res = next;
        next = repr[res as usize];
    }
    res
}

/// Schedules the variable of `lit` unless it is scheduled already.
pub fn schedule_literal(closure: &mut Closure, lit: u32)
    requires
        ((lit / 2) as int) < old(closure).scheduled@.len(),
    ensures
        old(closure).scheduled@[(lit / 2) as int] ==> final(closure).schedule@ == old(closure).schedule@
            && final(closure).scheduled@ == old(closure).scheduled@,
        !old(closure).scheduled@[(lit / 2) as int] ==> final(closure).schedule@ == old(closure).schedule@.push(lit)
            && final(closure).scheduled@ == old(closure).scheduled@.update((lit / 2) as int, true),
        final(closure).gates@ == old(closure).gates@,
        final(closure).repr@ == old(closure).repr@,
{
    let i = (lit / 2) as usize;
    if closure.scheduled[i] {
        return;
    }
    closure.scheduled.set(i, true);
    closure.schedule.push_back(lit);
}

/// Takes the next scheduled literal and unschedules its variable.
pub fn dequeue_next_scheduled_literal(closure: &mut Closure) -> (r: u32)
    requires
        old(closure).schedule@.len() > 0,
        ((old(closure).schedule@[0] / 2) as int) < old(closure).scheduled@.len(),
    ensures
        r == old(closure).schedule@[0],
        final(closure).schedule@ == old(closure).schedule@.drop_first(),
        final(closure).scheduled@ == old(closure).scheduled@.update((r / 2) as int, false),
        final(closure).gates@ == old(closure).gates@,
        final(closure).repr@ == old(closure).repr@,
{
    let res = match closure.schedule.pop_front() {
        Some(l) => l,
        None => {
            return 0;
        },
    };
    let i = (res / 2) as usize;
    closure.scheduled.set(i, false);
    res
}

/// Records that gate `g` occurs with literal `lit`.
pub fn connect_occurrence(closure: &mut Closure, lit: u32, g: u32)
    requires
        (lit as int) < old(closure).occurrences@.len(),
    ensures
        final(closure).occurrences@.len() == old(closure).occurrences@.len(),
        final(closure).occurrences@[lit as int]@ == old(closure).occurrences@[lit as int]@.push(g),
        forall|l: int| 0 <= l < old(closure).occurrences@.len() && l != lit ==> #[trigger] final(closure).occurrences@[l]
            == old(closure).occurrences@[l],
        final(closure).gates@ == old(closure).gates@,
{
    closure.occurrences[lit as usize].push(g);
}

/// Appends `src` and a terminating `INVALID` to `dst`.
pub fn copy_literals(dst: &mut Vec<u32>, src: &[u32])
    ensures
        final(dst)@ == old(dst)@ + src@ + seq![INVALID],
{
    let mut i: usize = 0;
    while i < src.len()
        invariant
            i <= src@.len(),
            dst@ == old(dst)@ + src@.take(i as int),
        decreases src@.len() - i,
    {
        dst.push(src[i]);
        i += 1;
        assert(src@.take(i as int) =~= src@.take(i - 1).push(src@[i - 1]));
    }
    dst.push(INVALID);
    assert(src@.take(src@.len() as int) =~= src@);
}

/// Normalizes the condition of an if-then-else gate `lits = [c, t, e]` to
/// be positive (swapping the branches), then the then-branch to be
/// positive (negating both branches); returns whether the branches were
/// negated.
pub fn normalize_ite_lits(lits: &mut [u32]) -> (r: bool)
    requires
        old(lits)@.len() >= 3,
    ensures
        ({
            let o = old(lits)@;
            let c = if o[0] % 2 == 1 { o[0] ^ 1 } else { o[0] };
            let t = if o[0] % 2 == 1 { o[2] } else { o[1] };
            let e = if o[0] % 2 == 1 { o[1] } else { o[2] };
            &&& r == (t % 2 == 1)
            &&& final(lits)@ == o.update(0, c).update(1, if r { t ^ 1 } else { t }).update(2, if r { e ^ 1 } else { e })
        }),
{
    if lits[0] & 1 != 0 {
        let c = lits[0] ^ 1;
        lits[0] = c;
        let a = lits[1];
        let b = lits[2];
        lits[1] = b;
        lits[2] = a;
    }
    proof {
        let x = old(lits)@[0];
        assert((x & 1 != 0) == (x % 2 == 1)) by (bit_vector);
        let y = lits@[1];
        assert((y & 1 == 0) == (y % 2 == 0)) by (bit_vector);
    }
    if lits[1] & 1 == 0 {
        assert(lits@ =~= old(lits)@.update(0, lits@[0]).update(1, lits@[1]).update(2, lits@[2]));
        return false;
    }
    let t = lits[1] ^ 1;
    lits[1] = t;
    let e = lits[2] ^ 1;
    lits[2] = e;
    assert(lits@ =~= old(lits)@.update(0, lits@[0]).update(1, lits@[1]).update(2, lits@[2]));
    true
}

/// Gate `g` exists and has its right-hand side in place.
pub open spec fn gate_ok(closure: &Closure, g: u32) -> bool {
    &&& (g as int) < closure.gates@.len()
    &&& closure.gates@[g as int].arity <= closure.gates@[g as int].rhs@.len()
}

/// Marks gate `g` as garbage and remembers it.
pub fn mark_gate_as_garbage(closure: &mut Closure, g: u32)
    requires
        (g as int) < old(closure).gates@.len(),
    ensures
        final(closure).gates@ == old(closure).gates@.update(g as int, Gate { garbage: true, ..old(closure).gates@[g as int] }),
        final(closure).garbage@ == old(closure).garbage@.push(g),
        final(closure).repr@ == old(closure).repr@,
        final(closure).hash_table@ == old(closure).hash_table@,
{
    closure.gates[g as usize].garbage = true;
    closure.garbage.push(g);
}

/// Shrinks the right-hand side of gate `g` to `new_arity` literals; the
/// first time it shrinks, its old last slot is overwritten with `INVALID`.
pub fn shrink_gate(closure: &mut Closure, g: u32, new_arity: u32)
    requires
        gate_ok(old(closure), g),
        new_arity <= old(closure).gates@[g as int].arity,
    ensures
        ({
            let o = old(closure).gates@[g as int];
            let rhs = if new_arity == o.arity || o.shrunken { o.rhs@ } else { o.rhs@.update(o.arity - 1, INVALID) };
            &&& final(closure).gates@.len() == old(closure).gates@.len()
            &&& final(closure).gates@[g as int].arity == new_arity
            &&& final(closure).gates@[g as int].rhs@ == rhs
            &&& final(closure).gates@[g as int].shrunken == (o.shrunken || new_arity != o.arity)
            &&& final(closure).gates@[g as int].lhs == o.lhs
            &&& final(closure).gates@[g as int].tag == o.tag
            &&& final(closure).gates@[g as int].hash == o.hash
            &&& final(closure).gates@[g as int].garbage == o.garbage
            &&& final(closure).gates@[g as int].indexed == o.indexed
            &&& final(closure).gates@[g as int].marked == o.marked
            &&& forall|h: int| 0 <= h < old(closure).gates@.len() && h != g ==> #[trigger] final(closure).gates@[h]
                == old(closure).gates@[h]
        }),
        final(closure).garbage@ == old(closure).garbage@,
        final(closure).repr@ == old(closure).repr@,
{
    let gi = g as usize;
    let old_arity = closure.gates[gi].arity;
    if new_arity == old_arity {
        return;
    }
    if !closure.gates[gi].shrunken {
        let last = (old_arity - 1) as usize;
        closure.gates[gi].rhs.set(last, INVALID);
        closure.gates[gi].shrunken = true;
    }
    closure.gates[gi].arity = new_arity;
}

/// Whether `lit` is among the right-hand side literals of `gate`.
pub fn gate_contains(gate: &Gate, lit: u32) -> (r: bool)
    requires
        gate.arity <= gate.rhs@.len(),
    ensures
        r == gate.rhs@.take(gate.arity as int).contains(lit),
{
    let n = gate.arity as usize;
    let mut i: usize = 0;
    while i < n
        invariant
            n == gate.arity,
            gate.arity <= gate.rhs@.len(),
            i <= n,
            forall|j: int| 0 <= j < i ==> gate.rhs@[j] != lit,
        decreases n - i,
    {
        if gate.rhs[i] == lit {
            assert(gate.rhs@.take(gate.arity as int)[i as int] == lit);
            return true;
        }
        i += 1;
    }
    false
}

/// When `dst` is the left-hand side of gate `g` or its negation, marks the
/// gate as garbage and says so.
pub fn rewriting_lhs(closure: &mut Closure, g: u32, dst: u32) -> (r: bool)
    requires
        (g as int) < old(closure).gates@.len(),
    ensures
        r == (dst == old(closure).gates@[g as int].lhs || dst == spec_not(old(closure).gates@[g as int].lhs)),
        r ==> final(closure).gates@ == old(closure).gates@.update(g as int, Gate { garbage: true, ..old(closure).gates@[g as int] })
            && final(closure).garbage@ == old(closure).garbage@.push(g),
        !r ==> final(closure).gates@ == old(closure).gates@ && final(closure).garbage@ == old(closure).garbage@,
        final(closure).repr@ == old(closure).repr@,
{
    let lhs = closure.gates[g as usize].lhs;
    proof {
        lemma_xor_one(lhs);
    }
    if dst != lhs && dst != (lhs ^ 1) {
        return false;
    }
    mark_gate_as_garbage(closure, g);
    true
}

/// Shrinks an and-gate to its first `q` literals, or to the single
/// falsifying literal, or to a clashing pair.
pub fn shrink_and_gate(closure: &mut Closure, g: u32, q: u32, falsifies: u32, clashing: u32)
    requires
        gate_ok(old(closure), g),
        old(closure).gates@[g as int].arity >= 2,
        falsifies == INVALID && clashing == INVALID ==> q <= old(closure).gates@[g as int].arity,
    ensures
        ({
            let o = old(closure).gates@[g as int];
            let n = if falsifies != INVALID { 1 } else if clashing != INVALID { 2 } else { q };
            let rhs0 = if falsifies != INVALID {
                o.rhs@.update(0, falsifies)
            } else if clashing != INVALID {
                o.rhs@.update(0, clashing).update(1, clashing ^ 1)
            } else {
                o.rhs@
            };
            let rhs = if n == o.arity || o.shrunken { rhs0 } else { rhs0.update(o.arity - 1, INVALID) };
            &&& final(closure).gates@.len() == old(closure).gates@.len()
            &&& final(closure).gates@[g as int].arity == n
            &&& final(closure).gates@[g as int].rhs@ == rhs
            &&& final(closure).gates@[g as int].lhs == o.lhs
            &&& forall|h: int| 0 <= h < old(closure).gates@.len() && h != g ==> #[trigger] final(closure).gates@[h]
                == old(closure).gates@[h]
        }),
{
    let gi = g as usize;
    let mut n = q;
    if falsifies != INVALID {
        closure.gates[gi].rhs.set(0, falsifies);
        n = 1;
    } else if clashing != INVALID {
        closure.gates[gi].rhs.set(0, clashing);
        closure.gates[gi].rhs.set(1, clashing ^ 1);
        n = 2;
    }
    shrink_gate(closure, g, n);
}

/// Whether an xor-gate is to be skipped: it is garbage.
pub fn skip_xor_gate(closure: &Closure, g: u32) -> (r: bool)
    requires
        (g as int) < closure.gates@.len(),
    ensures
        r == closure.gates@[g as int].garbage,
{
    closure.gates[g as usize].garbage
}

/// Shrinks an xor-gate to its first `q` literals.
pub fn shrink_xor_gate(closure: &mut Closure, g: u32, q: u32)
    requires
        gate_ok(old(closure), g),
        q <= old(closure).gates@[g as int].arity,
    ensures
        final(closure).gates@.len() == old(closure).gates@.len(),
        final(closure).gates@[g as int].arity == q,
        final(closure).gates@[g as int].rhs@ == (if q == old(closure).gates@[g as int].arity
            || old(closure).gates@[g as int].shrunken {
            old(closure).gates@[g as int].rhs@
        } else {
            old(closure).gates@[g as int].rhs@.update(old(closure).gates@[g as int].arity - 1, INVALID)
        }),
        forall|h: int| 0 <= h < old(closure).gates@.len() && h != g ==> #[trigger] final(closure).gates@[h]
            == old(closure).gates@[h],
{
    shrink_gate(closure, g, q);
}

/// Whether an if-then-else gate is to be skipped: it is garbage.
pub fn skip_ite_gate(closure: &Closure, g: u32) -> (r: bool)
    requires
        (g as int) < closure.gates@.len(),
    ensures
        r == closure.gates@[g as int].garbage,
{
    closure.gates[g as usize].garbage
}

/// The binary clauses of `lit` in `binaries`, as positions.
pub open spec fn segment_ok(binaries: Seq<LitPair>, offsetsize: Seq<OffsetSize>, lit: int) -> bool {
    &&& 0 <= lit < offsetsize.len()
    &&& offsetsize[lit].offset + offsetsize[lit].size <= binaries.len()
    &&& forall|i: int, j: int|
        #![trigger binaries[i], binaries[j]]
        offsetsize[lit].offset <= i < j < offsetsize[lit].offset + offsetsize[lit].size ==> binaries[i].lits[1] < binaries[j].lits[1]
}

/// Whether `b` is the second literal of one of the binary clauses of `a`.
pub open spec fn in_segment(binaries: Seq<LitPair>, offsetsize: Seq<OffsetSize>, a: int, b: u32) -> bool {
    exists|m: int| offsetsize[a].offset <= m < offsetsize[a].offset + offsetsize[a].size
        && #[trigger] binaries[m].lits[1] == b
}

/// Whether the binary clause of `lit` and `other` occurs among the binary
/// clauses listed, sorted by second literal, under the smaller of the two.
pub fn find_binary(binaries: &[LitPair], offsetsize: &[OffsetSize], lit: u32, other: u32) -> (r: bool)
    requires
        lit != other,
        segment_ok(binaries@, offsetsize@, if lit < other { lit as int } else { other as int }),
    ensures
        r == in_segment(binaries@, offsetsize@, if lit < other { lit as int } else { other as int },
            if lit < other { other } else { lit }),
{
    let a = if lit < other { lit } else { other };
    let b = if lit < other { other } else { lit };
    let os = offsetsize[a as usize];
    assert(os == offsetsize@[a as int]);
    assert(os.offset + os.size <= binaries@.len());
    assert(binaries@.len() == binaries.len());
    let mut l = os.offset as usize;
    let mut r = l + os.size as usize;
    while l < r
        invariant
            a == (if lit < other { lit } else { other }),
            b == (if lit < other { other } else { lit }),
            os == offsetsize@[a as int],
            os.offset <= l,
            r <= os.offset + os.size,
            os.offset + os.size <= binaries@.len(),
            segment_ok(binaries@, offsetsize@, a as int),
            forall|m: int| os.offset <= m < l ==> #[trigger] binaries@[m].lits[1] < b,
            forall|m: int| r <= m < os.offset + os.size ==> #[trigger] binaries@[m].lits[1] > b,
        decreases r - l,
    {
        let m = l + (r - l) / 2;
        let tmp = binaries[m].lits[1];
        assert(tmp == binaries@[m as int].lits[1]);
        if tmp < b {
            proof {
                assert forall|x: int| os.offset <= x < m + 1 implies #[trigger] binaries@[x].lits[1] < b by {
                    if x < m {
                        assert(binaries@[x].lits[1] < binaries@[m as int].lits[1]);
                    }
                }
            }
            l = m + 1;
        } else if tmp > b {
            proof {
                assert forall|x: int| m <= x < os.offset + os.size implies #[trigger] binaries@[x].lits[1] > b by {
                    if x > m {
                        assert(binaries@[m as int].lits[1] < binaries@[x].lits[1]);
                    }
                }
            }
            r = m;
        } else {
            assert(os.offset <= m < os.offset + os.size && binaries@[m as int].lits[1] == b);
            assert(in_segment(binaries@, offsetsize@, a as int, b));
            return true;
        }
    }
    false
}

/// The sort key of a pair: first literal, then second.
pub fn rank_litpair(p: &LitPair) -> (r: u64)
    ensures
        r == p.lits[0] as int * 0x1_0000_0000 + p.lits[1] as int,
{
    let mut res = p.lits[0] as u64;
    proof {
        assert(res << 32u64 == res * 0x1_0000_0000) by (bit_vector)
            requires
                res < 0x1_0000_0000,
        ;
    }
    res = res << 32;
    res = res + p.lits[1] as u64;
    res
}

/// Orders literals by their negated binary clause counts, then by value.
pub fn smaller_negated_bin_count(negbincount: &[u32], a: u32, b: u32) -> (r: bool)
    requires
        (a as int) < negbincount@.len(),
        (b as int) < negbincount@.len(),
    ensures
        r == (negbincount@[a as int] < negbincount@[b as int]
            || (negbincount@[a as int] == negbincount@[b as int] && a < b)),
{
    let c = negbincount[a as usize];
    let d = negbincount[b as usize];
    if c < d {
        return true;
    }
    if c > d {
        return false;
    }
    a < b
}

/// Lexicographic order of pairs.
pub open spec fn pair_less(p: LitPair, q: LitPair) -> bool {
    p.lits[0] < q.lits[0] || (p.lits[0] == q.lits[0] && p.lits[1] < q.lits[1])
}

/// Lexicographic order of pairs.
pub fn less_litpair(p: &LitPair, q: &LitPair) -> (r: bool)
    ensures
        r == pair_less(*p, *q),
{
    let a = p.lits[0];
    let b = q.lits[0];
    if a < b {
        return true;
    }
    if a > b {
        return false;
    }
    p.lits[1] < q.lits[1]
}

/// The second literals do not decrease along `pairs`.
pub open spec fn seconds_sorted(pairs: Seq<LitPair>) -> bool {
    forall|i: int, j: int| 0 <= i < j < pairs.len() ==> #[trigger] pairs[i].lits[1] <= #[trigger] pairs[j].lits[1]
}

/// Whether `lit` is the second literal of one of `pairs`.
pub open spec fn has_second(pairs: Seq<LitPair>, lit: u32) -> bool {
    exists|m: int| 0 <= m < pairs.len() && #[trigger] pairs[m].lits[1] == lit
}

/// Binary search for `lit` among the second literals of `pairs`.
pub fn find_litpair_second_literal(lit: u32, pairs: &[LitPair]) -> (r: bool)
    requires
        seconds_sorted(pairs@),
    ensures
        r == has_second(pairs@, lit),
{
    let mut l: usize = 0;
    let mut r: usize = pairs.len();
    while l != r
        invariant
            l <= r <= pairs@.len(),
            seconds_sorted(pairs@),
            forall|m: int| 0 <= m < l ==> #[trigger] pairs@[m].lits[1] < lit,
            forall|m: int| r <= m < pairs@.len() ==> #[trigger] pairs@[m].lits[1] > lit,
        decreases r - l,
    {
        let m = l + (r - l) / 2;
        let other = pairs[m].lits[1];
        assert(other == pairs@[m as int].lits[1]);
        if other < lit {
            proof {
                assert forall|x: int| 0 <= x < m + 1 implies #[trigger] pairs@[x].lits[1] < lit by {
                    if x < m {
                        assert(pairs@[x].lits[1] <= pairs@[m as int].lits[1]);
                    }
                }
            }
            l = m + 1;
        } else if other > lit {
            proof {
                assert forall|x: int| m <= x < pairs@.len() implies #[trigger] pairs@[x].lits[1] > lit by {
                    if x > m {
                        assert(pairs@[m as int].lits[1] <= pairs@[x].lits[1]);
                    }
                }
            }
            r = m;
        } else {
            return true;
        }
    }
    false
}

/// The conditional equivalences `search_condeq` finds among the first `k`
/// pairs of `pos`: for each `(pos_lit, other)` whose negation partner
/// `(neg_lit, not other)` is in `neg`, the equivalence as two ordered pairs.
pub open spec fn condeq_pairs(pos_lit: u32, pos: Seq<LitPair>, neg_lit: u32, neg: Seq<LitPair>, k: int) -> Seq<LitPair>
    decreases k,
{
    if k <= 0 {
        seq![]
    } else {
        let prev = condeq_pairs(pos_lit, pos, neg_lit, neg, k - 1);
        let other = pos[k - 1].lits[1];
        let not_other = other ^ 1;
        if has_second(neg, not_other) {
            let first = if pos_lit % 2 == 1 { neg_lit } else { pos_lit };
            let second = if pos_lit % 2 == 1 { other } else { not_other };
            let back = if second % 2 == 1 {
                LitPair { lits: [second ^ 1, first ^ 1] }
            } else {
                LitPair { lits: [second, first] }
            };
            prev.push(LitPair { lits: [first, second] }).push(back)
        } else {
            prev
        }
    }
}

/// Appends the conditional equivalences between the binary clauses `pos`
/// of `pos_lit` and `neg` of its negation `neg_lit`.
pub fn search_condeq(pos_lit: u32, pos: &[LitPair], neg_lit: u32, neg: &[LitPair], condeq: &mut Vec<LitPair>)
    requires
        seconds_sorted(neg@),
    ensures
        final(condeq)@ == old(condeq)@ + condeq_pairs(pos_lit, pos@, neg_lit, neg@, pos@.len() as int),
{
    let mut i: usize = 0;
    while i < pos.len()
        invariant
            i <= pos@.len(),
            seconds_sorted(neg@),
            condeq@ == old(condeq)@ + condeq_pairs(pos_lit, pos@, neg_lit, neg@, i as int),
        decreases pos@.len() - i,
    {
        let other = pos[i].lits[1];
        let not_other = other ^ 1;
        if find_litpair_second_literal(not_other, neg) {
            let first;
            let second;
            if pos_lit & 1 != 0 {
                first = neg_lit;
                second = other;
            } else {
                first = pos_lit;
                second = not_other;
            }
            proof {
                assert((pos_lit & 1 != 0) == (pos_lit % 2 == 1)) by (bit_vector);
                assert((second & 1 != 0) == (second % 2 == 1)) by (bit_vector);
            }
            condeq.push(LitPair { lits: [first, second] });
            if second & 1 != 0 {
                condeq.push(LitPair { lits: [second ^ 1, first ^ 1] });
            } else {
                condeq.push(LitPair { lits: [second, first] });
            }
        }
        proof {
            assert(condeq@ =~= old(condeq)@ + condeq_pairs(pos_lit, pos@, neg_lit, neg@, i + 1));
        }
        i += 1;
    }
}


/// The pairs are sorted by first literal, then by second.
pub open spec fn pairs_sorted(pairs: Seq<LitPair>) -> bool {
    forall|i: int, j: int| 0 <= i < j < pairs.len() ==> !pair_less(#[trigger] pairs[j], #[trigger] pairs[i])
}

/// The end of the run of pairs from `b` on with the first literal of
/// pair `b`.
pub open spec fn group_end(pairs: Seq<LitPair>, b: int, i: int) -> int
    decreases pairs.len() - i,
{
    if i >= pairs.len() || i < 0 || pairs[i].lits[0] != pairs[b].lits[0] {
        i
    } else {
        group_end(pairs, b, i + 1)
    }
}

/// The conditional equivalences found from position `b` on: for each run
/// of a positive first literal directly followed by the run of its
/// negation, those of `search_condeq` on the two runs, the shorter first.
pub open spec fn condeqs_from(pairs: Seq<LitPair>, b: int) -> Seq<LitPair>
    decreases pairs.len() - b,
{
    if b < 0 || b >= pairs.len() {
        Seq::empty()
    } else {
        let p = pairs[b].lits[0];
        let e = group_end(pairs, b, b + 1);
        if e <= b || e > pairs.len() {
            Seq::empty()
        } else if p % 2 == 0 && e < pairs.len() && pairs[e].lits[0] == p ^ 1 {
            let e2 = group_end(pairs, e, e + 1);
            if e2 <= e || e2 > pairs.len() {
                Seq::empty()
            } else {
                let pos = pairs.subrange(b, e);
                let neg = pairs.subrange(e, e2);
                (if e - b <= e2 - e {
                    condeq_pairs(p, pos, p ^ 1, neg, pos.len() as int)
                } else {
                    condeq_pairs(p ^ 1, neg, p, pos, neg.len() as int)
                }) + condeqs_from(pairs, e2)
            }
        } else {
            condeqs_from(pairs, e)
        }
    }
}

proof fn lemma_group_end(pairs: Seq<LitPair>, b: int, i: int)
    requires
        0 <= b < i <= pairs.len(),
        forall|x: int| b <= x < i ==> #[trigger] pairs[x].lits[0] == pairs[b].lits[0],
    ensures
        i <= group_end(pairs, b, i) <= pairs.len(),
        forall|x: int| b <= x < group_end(pairs, b, i) ==> #[trigger] pairs[x].lits[0] == pairs[b].lits[0],
        group_end(pairs, b, i) < pairs.len() ==> pairs[group_end(pairs, b, i)].lits[0] != pairs[b].lits[0],
    decreases pairs.len() - i,
{
    if i < pairs.len() && pairs[i].lits[0] == pairs[b].lits[0] {
        lemma_group_end(pairs, b, i + 1);
    }
}

/// The end of the run of pairs from `b` on with the first literal of
/// pair `b`.
fn find_group_end(pairs: &[LitPair], b: usize) -> (e: usize)
    requires
        b < pairs@.len(),
    ensures
        e == group_end(pairs@, b as int, b + 1),
        b < e <= pairs@.len(),
        forall|x: int| b <= x < e ==> #[trigger] pairs@[x].lits[0] == pairs@[b as int].lits[0],
        e < pairs@.len() ==> pairs@[e as int].lits[0] != pairs@[b as int].lits[0],
{
    proof {
        lemma_group_end(pairs@, b as int, b + 1);
    }
    let lit = pairs[b].lits[0];
    let mut e = b + 1;
    while e < pairs.len() && pairs[e].lits[0] == lit
        invariant
            b < e <= pairs@.len(),
            lit == pairs@[b as int].lits[0],
            group_end(pairs@, b as int, e as int) == group_end(pairs@, b as int, b + 1),
        decreases pairs@.len() - e,
    {
        e += 1;
    }
    e
}

/// A run of a sorted sequence of pairs with one first literal has sorted
/// second literals.
proof fn lemma_run_seconds_sorted(pairs: Seq<LitPair>, b: int, e: int)
    requires
        pairs_sorted(pairs),
        0 <= b <= e <= pairs.len(),
        forall|x: int| b <= x < e ==> #[trigger] pairs[x].lits[0] == pairs[b].lits[0],
    ensures
        seconds_sorted(pairs.subrange(b, e)),
{
    let s = pairs.subrange(b, e);
    assert forall|i: int, j: int| 0 <= i < j < s.len() implies #[trigger] s[i].lits[1] <= #[trigger] s[j].lits[1] by {
        assert(s[i] == pairs[b + i] && s[j] == pairs[b + j]);
        assert(!pair_less(pairs[b + j], pairs[b + i]));
        assert(pairs[b + i].lits[0] == pairs[b].lits[0] && pairs[b + j].lits[0] == pairs[b].lits[0]);
    }
}

/// Appends the conditional equivalences between the binary clauses of each
/// positive literal and those of its negation, the binary clauses being
/// sorted and grouped by their first literal.
pub fn extract_condeq_pairs(_lit: u32, condbin: &[LitPair], condeq: &mut Vec<LitPair>)
    requires
        pairs_sorted(condbin@),
    ensures
        final(condeq)@ == old(condeq)@ + condeqs_from(condbin@, 0),
{
    let end = condbin.len();
    let mut b: usize = 0;
    while b < end
        invariant
            end == condbin@.len(),
            b <= end,
            pairs_sorted(condbin@),
            condeq@ + condeqs_from(condbin@, b as int) == old(condeq)@ + condeqs_from(condbin@, 0),
        decreases end - b,
    {
        let p = condbin[b].lits[0];
        let e = find_group_end(condbin, b);
        proof {
            lemma_xor_one(p);
            assert((p & 1u32 == 0u32) == (p % 2 == 0)) by (bit_vector);
        }
        if p & 1 == 0 && e < end && condbin[e].lits[0] == p ^ 1 {
            let e2 = find_group_end(condbin, e);
            let ghost c0 = condeq@;
            proof {
                lemma_run_seconds_sorted(condbin@, b as int, e as int);
                lemma_run_seconds_sorted(condbin@, e as int, e2 as int);
            }
            if e - b <= e2 - e {
                search_condeq(p, &condbin[b..e], p ^ 1, &condbin[e..e2], condeq);
            } else {
                search_condeq(p ^ 1, &condbin[e..e2], p, &condbin[b..e], condeq);
            }
            proof {
                assert(condeqs_from(condbin@, b as int) == condeq@.subrange(c0.len() as int, condeq@.len() as int)
                    + condeqs_from(condbin@, e2 as int));
                assert(condeq@ =~= c0 + condeq@.subrange(c0.len() as int, condeq@.len() as int));
                assert(condeq@ + condeqs_from(condbin@, e2 as int) =~= c0 + condeqs_from(condbin@, b as int));
            }
            b = e2;
        } else {
            b = e;
        }
    }
    proof {
        assert(condeq@ + condeqs_from(condbin@, b as int) =~= condeq@);
    }
}


/// `r` holds the references of `a` sorted by size, those of equal size in
/// their order in `a`, where `perm` maps each position of `r` to the one
/// in `a` it comes from.
pub open spec fn sorted_by_size(r: Seq<RefSize>, a: Seq<RefSize>, perm: Seq<int>) -> bool {
    &&& permuted(r, a, perm)
    &&& forall|x: int, y: int| 0 <= x < y < r.len() ==> (#[trigger] r[x]).size <= (#[trigger] r[y]).size
    &&& forall|x: int, y: int| 0 <= x < y < r.len() && r[x].size == r[y].size ==> #[trigger] perm[x] < #[trigger] perm[y]
}

/// Sorts the clause references by clause size, keeping the order of those
/// of equal size.
pub fn sort_references_by_clause_size(candidates: &mut [RefSize])
    ensures
        exists|perm: Seq<int>| sorted_by_size(final(candidates)@, old(candidates)@, perm),
{
    let n = candidates.len();
    let ghost a = candidates@;
    let ghost mut perm: Seq<int> = Seq::new(n as nat, |x: int| x);
    if n == 0 {
        proof {
            assert(sorted_by_size(candidates@, a, perm));
        }
        return;
    }
    let mut i: usize = 1;
    while i < n
        invariant
            n == a.len(),
            candidates@.len() == n,
            1 <= i <= n,
            is_permutation(perm, n as int),
            forall|x: int| 0 <= x < n ==> candidates@[x] == a[#[trigger] perm[x]],
            forall|x: int| i <= x < n ==> #[trigger] perm[x] == x,
            forall|x: int, y: int| 0 <= x < y < i ==> (#[trigger] candidates@[x]).size <= (#[trigger] candidates@[y]).size,
            forall|x: int, y: int| 0 <= x < y < i && candidates@[x].size == candidates@[y].size ==> #[trigger] perm[x] < #[trigger] perm[y],
        decreases n - i,
    {
        let ghost m = candidates@[i as int];
        proof {
            assert forall|x: int| 0 <= x <= i && x != i implies #[trigger] perm[x] < i by {
                if perm[x] >= i {
                    let y = perm[x];
                    assert(perm[y] == y);
                }
            }
        }
        let mut j: usize = i;
        while j > 0 && candidates[j - 1].size > candidates[j].size
            invariant
                n == a.len(),
                candidates@.len() == n,
                1 <= i < n,
                j <= i,
                candidates@[j as int] == m,
                perm[j as int] == i,
                is_permutation(perm, n as int),
                forall|x: int| 0 <= x < n ==> candidates@[x] == a[#[trigger] perm[x]],
                forall|x: int| i < x < n ==> #[trigger] perm[x] == x,
                forall|x: int| 0 <= x <= i && x != j ==> #[trigger] perm[x] < i,
                forall|x: int, y: int| 0 <= x < y <= i && x != j && y != j ==> (#[trigger] candidates@[x]).size <= (#[trigger] candidates@[y]).size,
                forall|x: int, y: int| 0 <= x < y <= i && x != j && y != j && candidates@[x].size == candidates@[y].size ==> #[trigger] perm[x] < #[trigger] perm[y],
                forall|y: int| j < y <= i ==> (#[trigger] candidates@[y]).size > m.size,
            decreases j,
        {
            let ghost c0 = candidates@;
            let ghost p0 = perm;
            let x = candidates[j - 1];
            let y = candidates[j];
            candidates[j - 1] = y;
            candidates[j] = x;
            proof {
                let jj = j as int;
                perm = p0.update(jj - 1, p0[jj]).update(jj, p0[jj - 1]);
                assert forall|u: int, v: int| 0 <= u < n && 0 <= v < n && u != v implies #[trigger] perm[u] != #[trigger] perm[v] by {
                    let pu = if u == jj { jj - 1 } else if u == jj - 1 { jj } else { u };
                    let pv = if v == jj { jj - 1 } else if v == jj - 1 { jj } else { v };
                    assert(perm[u] == p0[pu] && perm[v] == p0[pv]);
                }
                assert forall|u: int| 0 <= u < n implies 0 <= #[trigger] perm[u] < n by {
                    let pu = if u == jj { jj - 1 } else if u == jj - 1 { jj } else { u };
                    assert(perm[u] == p0[pu]);
                }
                assert forall|u: int| 0 <= u < n implies candidates@[u] == a[#[trigger] perm[u]] by {
                    let pu = if u == jj { jj - 1 } else if u == jj - 1 { jj } else { u };
                    assert(perm[u] == p0[pu]);
                    assert(candidates@[u] == c0[pu]);
                }
            }
            j -= 1;
        }
        proof {
            assert forall|x: int, y: int| 0 <= x < y < i + 1 implies (#[trigger] candidates@[x]).size <= (#[trigger] candidates@[y]).size by {
                if x == j as int {
                    if y > j {
                    }
                } else if y == j as int {
                    if j > 0 && x < j - 1 {
                        assert(candidates@[x].size <= candidates@[j - 1].size);
                    }
                }
            }
            assert forall|x: int, y: int| 0 <= x < y < i + 1 && candidates@[x].size == candidates@[y].size implies #[trigger] perm[x] < #[trigger] perm[y] by {
                if y == j as int {
                    assert(perm[x] < i);
                }
            }
        }
        i += 1;
    }
    proof {
        assert(sorted_by_size(candidates@, a, perm));
    }
}

/// What rewriting an if-then-else gate leaves its caller to do.
pub enum IteRewrite {
    /// Nothing to do: gate `g` is garbage or does not take `src`.
    Skipped,
    /// Merge the output of gate `g` (the first literal) with the second
    /// literal, and drop gate `g`, which is left as it is.
    Merge(u32, u32),
    /// Look gate `g` up and index it again: it is now an and-gate or an
    /// xor-gate of two literals.
    Shrunken,
    /// `src` was replaced by `dst` among the inputs of the if-then-else,
    /// which is to be looked up and indexed again.
    Substituted,
}

/// The case an if-then-else gate falls into once an input equals `dst`.
pub enum IteCase {
    /// Its output equals this literal.
    Equal(u32),
    /// An and-gate or xor-gate: output, tag, and its two inputs.
    Two(u32, u32, u32, u32),
    /// The input at this position is to be replaced.
    Replace(usize),
}

/// Values of literals in which a literal and its negation are opposite.
pub open spec fn consistent(val: spec_fn(u32) -> bool) -> bool {
    forall|l: u32| #[trigger] val(spec_not(l)) == !val(l)
}

/// The if-then-else equation of output `o` and inputs `c`, `t`, `e`.
pub open spec fn ite_holds(val: spec_fn(u32) -> bool, o: u32, c: u32, t: u32, e: u32) -> bool {
    val(o) == if val(c) { val(t) } else { val(e) }
}

/// The and (tag `AND_GATE`) or xor equation of output `o` and inputs `a`,
/// `b`.
pub open spec fn two_holds(val: spec_fn(u32) -> bool, o: u32, tag: u32, a: u32, b: u32) -> bool {
    if tag == AND_GATE { val(o) == (val(a) && val(b)) } else { val(o) == (val(a) != val(b)) }
}

/// The equation of a gate holds under `val`: its output is the and, the
/// xor, or the if-then-else of its inputs.
pub open spec fn gate_holds(g: Gate, val: spec_fn(u32) -> bool) -> bool {
    if g.tag == AND_GATE || g.tag == XOR_GATE {
        two_holds(val, g.lhs, g.tag, g.rhs@[0], g.rhs@[1])
    } else {
        ite_holds(val, g.lhs, g.rhs@[0], g.rhs@[1], g.rhs@[2])
    }
}

/// Literal `x` is `y` or its negation.
pub open spec fn equal_or_opposite(x: u32, y: u32) -> bool {
    x == y || spec_not(x) == y
}

/// Which case the if-then-else of output `lhs` and inputs `c`, `t`, `e`
/// falls into when input `src` equals `dst`: the output equals an input;
/// it is an and-gate or xor-gate of two literals (sorted, and for an xor
/// positive with the output negated to make up); or `src` is to be
/// replaced. Under values that give `src` and `dst` the same value, the
/// new equation holds exactly when the if-then-else does.
pub fn ite_case(lhs: u32, c: u32, t: u32, e: u32, src: u32, dst: u32) -> (r: IteCase)
    requires
        src == c || src == t || src == e,
    ensures
        r matches IteCase::Equal(y) ==> forall|val: spec_fn(u32) -> bool| consistent(val) && val(src) == val(dst)
            ==> ((val(lhs) == val(y)) <==> #[trigger] ite_holds(val, lhs, c, t, e)),
        r matches IteCase::Two(o, tag, a, b) ==> {
            &&& (tag == AND_GATE || tag == XOR_GATE)
            &&& (o == lhs || o == spec_not(lhs))
            &&& tag == AND_GATE ==> a <= b
            &&& tag == XOR_GATE ==> a % 2 == 0 && b % 2 == 0
            &&& forall|val: spec_fn(u32) -> bool| consistent(val) && val(src) == val(dst)
                ==> (two_holds(val, o, tag, a, b) <==> #[trigger] ite_holds(val, lhs, c, t, e))
        },
        r matches IteCase::Replace(pos) ==> pos == (if src == c { 0usize } else if src == t { 1usize } else { 2usize }),
        r is Replace <==> !equal_or_opposite(dst, if src == c { t } else { c }) && !equal_or_opposite(dst,
            if src == c || src == t { e } else { t }),
        r is Equal <==> src != c && !equal_or_opposite(dst, c) && dst == (if src == t { e } else { t }),
        r matches IteCase::Equal(y) ==> y == dst,
        (r matches IteCase::Two(o, tag, a, b) && tag == XOR_GATE) <==> src != c && !equal_or_opposite(dst, c)
            && spec_not(dst) == (if src == t { e } else { t }),
{
    proof {
        lemma_xor_one(lhs);
        lemma_xor_one(dst);
        lemma_xor_one(c);
        lemma_xor_one(t);
        lemma_xor_one(e);
    }
    let not_lhs = lhs ^ 1;
    let not_dst = dst ^ 1;
    let mut o = lhs;
    let mut tag = AND_GATE;
    let mut a: u32 = 0;
    let mut b: u32 = 0;
    if src == c {
        if dst == t {
            o = not_lhs;
            a = t ^ 1;
            b = e ^ 1;
        } else if not_dst == t || dst == e {
            a = e;
            b = t;
        } else if not_dst == e {
            o = not_lhs;
            a = t ^ 1;
            b = e ^ 1;
        } else {
            return IteCase::Replace(0);
        }
    } else if src == t {
        if dst == c {
            o = not_lhs;
            a = c ^ 1;
            b = e ^ 1;
        } else if not_dst == c {
            a = c ^ 1;
            b = e;
        } else if dst == e {
            return IteCase::Equal(e);
        } else if not_dst == e {
            tag = XOR_GATE;
            a = c;
            b = e;
        } else {
            return IteCase::Replace(1);
        }
    } else {
        if dst == c {
            a = c;
            b = t;
        } else if not_dst == c {
            o = not_lhs;
            a = c;
            b = t ^ 1;
        } else if dst == t {
            return IteCase::Equal(t);
        } else if not_dst == t {
            tag = XOR_GATE;
            o = not_lhs;
            a = c;
            b = t;
        } else {
            return IteCase::Replace(2);
        }
    }
    let ghost o0 = o;
    let ghost a0 = a;
    let ghost b0 = b;
    assert(forall|val: spec_fn(u32) -> bool| consistent(val) && val(src) == val(dst)
        ==> (two_holds(val, o0, tag, a0, b0) <==> #[trigger] ite_holds(val, lhs, c, t, e)));
    if a > b {
        let x = a;
        a = b;
        b = x;
    }
    if tag == XOR_GATE {
        if a % 2 == 1 {
            proof {
                lemma_xor_one(a);
                lemma_xor_one(o);
            }
            a = a ^ 1;
            o = o ^ 1;
        }
        if b % 2 == 1 {
            proof {
                lemma_xor_one(b);
                lemma_xor_one(o);
            }
            b = b ^ 1;
            o = o ^ 1;
        }
    }
    IteCase::Two(o, tag, a, b)
}

/// Rewrites the if-then-else gate `g` after literal `src` among its
/// inputs was found equal to `dst` (see `ite_case`): shrunk to an and-gate
/// or an xor-gate of two literals, the output reported for merging with an
/// input, or `src` replaced by `dst`. Under any values that give `src` and
/// `dst` the same value, the rewritten gate (or the merge) holds exactly
/// when the original gate does.
pub fn rewrite_ite_gate(closure: &mut Closure, g: u32, dst: u32, src: u32) -> (r: IteRewrite)
    requires
        (g as int) < old(closure).gates@.len(),
        old(closure).gates@[g as int].tag == ITE_GATE,
        old(closure).gates@[g as int].arity == 3,
        old(closure).gates@[g as int].rhs@.len() >= 3,
    ensures
        ({
            let o = old(closure).gates@[g as int];
            let n = final(closure).gates@[g as int];
            &&& (o.garbage || !o.rhs@.take(3).contains(src)) <==> r is Skipped
            &&& !(r is Shrunken || r is Substituted) ==> *final(closure) == *old(closure)
            &&& *final(closure) == (Closure { gates: final(closure).gates, ..*old(closure) })
            &&& final(closure).gates@.len() == old(closure).gates@.len()
            &&& forall|h: int| 0 <= h < old(closure).gates@.len() && h != g ==> #[trigger] final(closure).gates@[h]
                == old(closure).gates@[h]
            &&& r matches IteRewrite::Merge(x, y) ==> x == o.lhs && forall|val: spec_fn(u32) -> bool|
                consistent(val) && val(src) == val(dst) ==> ((val(x) == val(y)) <==> #[trigger] gate_holds(o, val))
            &&& r is Substituted ==> {
                let pos = if o.rhs@[0] == src { 0int } else if o.rhs@[1] == src { 1int } else { 2int };
                &&& n == Gate { rhs: n.rhs, ..o } && n.rhs@ == o.rhs@.update(pos, dst)
                &&& forall|q: int| 0 <= q < 3 && q != pos ==> !#[trigger] equal_or_opposite(dst, o.rhs@[q])
            }
            &&& !(r is Skipped) && !(r is Substituted) ==> {
                let pos = if o.rhs@[0] == src { 0int } else if o.rhs@[1] == src { 1int } else { 2int };
                exists|q: int| 0 <= q < 3 && q != pos && #[trigger] equal_or_opposite(dst, o.rhs@[q])
            }
            &&& r is Shrunken ==> {
                &&& n == Gate { lhs: n.lhs, tag: n.tag, arity: 2, shrunken: true, rhs: n.rhs, ..o }
                &&& (n.tag == AND_GATE || n.tag == XOR_GATE)
                &&& (n.lhs == o.lhs || n.lhs == spec_not(o.lhs))
                &&& n.rhs@.len() == o.rhs@.len()
                &&& n.rhs@[2] == INVALID
                &&& forall|i: int| 3 <= i < o.rhs@.len() ==> n.rhs@[i] == o.rhs@[i]
                &&& n.tag == AND_GATE ==> n.rhs@[0] <= n.rhs@[1]
                &&& n.tag == XOR_GATE ==> n.rhs@[0] % 2 == 0 && n.rhs@[1] % 2 == 0
            }
            &&& (r is Shrunken || r is Substituted) ==> forall|val: spec_fn(u32) -> bool|
                consistent(val) && val(src) == val(dst) ==> (gate_holds(n, val) <==> #[trigger] gate_holds(o, val))
        }),
{
    let gi = g as usize;
    if closure.gates[gi].garbage {
        return IteRewrite::Skipped;
    }
    if !gate_contains(&closure.gates[gi], src) {
        return IteRewrite::Skipped;
    }
    let ghost o = closure.gates@[g as int];
    let lhs = closure.gates[gi].lhs;
    let c = closure.gates[gi].rhs[0];
    let t = closure.gates[gi].rhs[1];
    let e = closure.gates[gi].rhs[2];
    proof {
        let k = choose|k: int| 0 <= k < 3 && o.rhs@.take(3)[k] == src;
        assert(o.rhs@.take(3)[k] == o.rhs@[k]);
    }
    let case = ite_case(lhs, c, t, e, src, dst);
    proof {
        let pos = if c == src { 0int } else if t == src { 1int } else { 2int };
        let q1 = if src == c { 1int } else { 0int };
        let q2 = if src == c || src == t { 2int } else { 1int };
        assert(q1 != pos && q2 != pos && q1 != q2);
        assert(o.rhs@[q1] == (if src == c { t } else { c }));
        assert(o.rhs@[q2] == (if src == c || src == t { e } else { t }));
        if !(case is Replace) {
            if equal_or_opposite(dst, o.rhs@[q1]) {
                assert(0 <= q1 < 3 && q1 != pos && equal_or_opposite(dst, o.rhs@[q1]));
            } else {
                assert(0 <= q2 < 3 && q2 != pos && equal_or_opposite(dst, o.rhs@[q2]));
            }
        } else {
            assert forall|q: int| 0 <= q < 3 && q != pos implies !#[trigger] equal_or_opposite(dst, o.rhs@[q]) by {
                assert(q == q1 || q == q2);
            }
        }
    }
    match case {
        IteCase::Equal(y) => IteRewrite::Merge(lhs, y),
        IteCase::Replace(pos) => {
            closure.gates[gi].rhs.set(pos, dst);
            proof {
                let n = closure.gates@[g as int];
                assert forall|val: spec_fn(u32) -> bool| consistent(val) && val(src) == val(dst)
                    implies (gate_holds(n, val) <==> #[trigger] gate_holds(o, val)) by {
                    assert(n.rhs@[pos as int] == dst);
                }
            }
            IteRewrite::Substituted
        },
        IteCase::Two(new_lhs, tag, a, b) => {
            closure.gates[gi].lhs = new_lhs;
            closure.gates[gi].rhs.set(0, a);
            closure.gates[gi].rhs.set(1, b);
            closure.gates[gi].rhs.set(2, INVALID);
            closure.gates[gi].arity = 2;
            closure.gates[gi].tag = tag;
            closure.gates[gi].shrunken = true;
            IteRewrite::Shrunken
        },
    }
}

/// How a clause stands as a candidate for subsumption by matching.
pub enum MatchCandidate {
    /// A literal is true, or two unassigned literals have opposite
    /// representatives: the clause is garbage.
    Garbage,
    /// No unassigned literal is of a matchable variable.
    Unmatchable,
    /// A candidate, with the number of distinct representatives of its
    /// unassigned literals.
    Candidate(usize),
}

/// Some literal of `lits` is true.
pub open spec fn some_true(lits: Seq<u32>, values: Seq<i8>) -> bool {
    exists|k: int| 0 <= k < lits.len() && values[#[trigger] lits[k] as int] > 0
}

/// Two unassigned literals of `lits` have opposite representatives.
pub open spec fn opposite_reprs(lits: Seq<u32>, values: Seq<i8>, repr: Seq<u32>) -> bool {
    exists|j: int, k: int| 0 <= j < lits.len() && 0 <= k < lits.len() && values[#[trigger] lits[j] as int] == 0
        && values[#[trigger] lits[k] as int] == 0 && repr_of(repr, lits[j] as int) == spec_not(repr_of(repr, lits[k] as int) as u32)
}

/// Some unassigned literal of `lits` is of a matchable variable.
pub open spec fn some_matchable(lits: Seq<u32>, values: Seq<i8>, matchable: Seq<bool>) -> bool {
    exists|k: int| 0 <= k < lits.len() && values[#[trigger] lits[k] as int] == 0 && matchable[(lits[k] / 2) as int]
}

/// The representatives of the unassigned literals of `lits`.
pub open spec fn unassigned_reprs(lits: Seq<u32>, values: Seq<i8>, repr: Seq<u32>) -> Set<u32> {
    Set::new(|x: u32| exists|k: int| 0 <= k < lits.len() && values[#[trigger] lits[k] as int] == 0
        && repr_of(repr, lits[k] as int) == x)
}

/// A representative is at most the literal it represents.
proof fn lemma_repr_below(repr: Seq<u32>, lit: int)
    requires
        repr_ok(repr),
        0 <= lit,
    ensures
        0 <= repr_of(repr, lit) <= lit,
    decreases lit,
{
    if 0 <= lit < repr.len() && repr[lit] < lit {
        lemma_repr_below(repr, repr[lit] as int);
    }
}

/// Sorts a clause for subsumption by matching: garbage when a literal is
/// true or two unassigned literals have opposite representatives;
/// otherwise unmatchable when none of its unassigned literals is of a
/// matchable variable; otherwise a candidate whose size is the number of
/// distinct representatives of its unassigned literals.
pub fn classify_matching_clause(closure: &Closure, lits: &Vec<u32>, values: &Vec<i8>, matchable: &Vec<bool>)
    -> (r: MatchCandidate)
    requires
        repr_ok(closure.repr@),
        forall|k: int| 0 <= k < lits@.len() ==> (#[trigger] lits@[k] as int) < closure.repr@.len()
            && (lits@[k] as int) < values@.len() && (lits@[k] / 2) < matchable@.len(),
    ensures
        r is Garbage <==> some_true(lits@, values@) || opposite_reprs(lits@, values@, closure.repr@),
        r is Unmatchable <==> !(some_true(lits@, values@) || opposite_reprs(lits@, values@, closure.repr@))
            && !some_matchable(lits@, values@, matchable@),
        r matches MatchCandidate::Candidate(n) ==> n == unassigned_reprs(lits@, values@, closure.repr@).len(),
{
    let ghost rp = closure.repr@;
    let ghost ls = lits@;
    let mut an: Vec<u32> = Vec::new();
    let mut mt = false;
    let mut j: usize = 0;
    while j < lits.len()
        invariant
            rp == closure.repr@,
            ls == lits@,
            repr_ok(rp),
            forall|k: int| 0 <= k < ls.len() ==> (#[trigger] ls[k] as int) < rp.len()
                && (ls[k] as int) < values@.len() && (ls[k] / 2) < matchable@.len(),
            j <= ls.len(),
            an@.no_duplicates(),
            forall|k: int| 0 <= k < j ==> values@[#[trigger] ls[k] as int] <= 0,
            forall|x: u32| an@.contains(x) <==> exists|k: int| 0 <= k < j && values@[#[trigger] ls[k] as int] == 0
                && repr_of(rp, ls[k] as int) == x,
            forall|a: int, b: int| 0 <= a < j && 0 <= b < j && values@[#[trigger] ls[a] as int] == 0
                && values@[#[trigger] ls[b] as int] == 0 ==> repr_of(rp, ls[a] as int) != spec_not(repr_of(rp, ls[b] as int) as u32),
            mt <==> exists|k: int| 0 <= k < j && values@[#[trigger] ls[k] as int] == 0 && matchable@[(ls[k] / 2) as int],
        decreases ls.len() - j,
    {
        let l = lits[j];
        let v = values[l as usize];
        if v > 0 {
            proof {
                assert(values@[ls[j as int] as int] > 0);
            }
            return MatchCandidate::Garbage;
        }
        if v == 0 {
            if matchable[(l / 2) as usize] {
                mt = true;
            }
            let r = find_repr(closure, l);
            let ghost an0 = an@;
            proof {
                lemma_repr_below(rp, l as int);
                lemma_xor_one(r);
                lemma_xor_one(r ^ 1);
                assert(values@[ls[j as int] as int] == 0 && repr_of(rp, ls[j as int] as int) == r);
            }
            let present = crate::fastel::has_lit(&an, r);
            if !present {
                if crate::fastel::has_lit(&an, r ^ 1) {
                    proof {
                        let k = choose|k: int| 0 <= k < j && values@[#[trigger] ls[k] as int] == 0
                            && repr_of(rp, ls[k] as int) == r ^ 1;
                        assert(values@[ls[k] as int] == 0 && values@[ls[j as int] as int] == 0);
                        assert(repr_of(rp, ls[k] as int) == spec_not(repr_of(rp, ls[j as int] as int) as u32));
                    }
                    return MatchCandidate::Garbage;
                }
                an.push(r);
                proof {
                    assert(an@.drop_last() == an0);
                    assert forall|x: u32| an@.contains(x) <==> exists|k: int| 0 <= k < j + 1 && values@[#[trigger] ls[k] as int] == 0
                        && repr_of(rp, ls[k] as int) == x by {
                        if an@.contains(x) {
                            let i = choose|i: int| 0 <= i < an@.len() && an@[i] == x;
                            if i < an@.len() - 1 {
                                assert(an0[i] == x);
                                assert(an0.contains(x));
                            }
                        }
                        if exists|k: int| 0 <= k < j + 1 && values@[#[trigger] ls[k] as int] == 0 && repr_of(rp, ls[k] as int) == x {
                            let k = choose|k: int| 0 <= k < j + 1 && values@[#[trigger] ls[k] as int] == 0 && repr_of(rp, ls[k] as int) == x;
                            if k < j {
                                assert(an0.contains(x));
                                let i = choose|i: int| 0 <= i < an0.len() && an0[i] == x;
                                assert(an@[i] == x);
                            } else {
                                assert(an@[an@.len() - 1] == x);
                            }
                        }
                    }
                }
            }
            proof {
                assert forall|a: int, b: int| 0 <= a < j + 1 && 0 <= b < j + 1 && values@[#[trigger] ls[a] as int] == 0
                    && values@[#[trigger] ls[b] as int] == 0 implies repr_of(rp, ls[a] as int) != spec_not(repr_of(rp, ls[b] as int) as u32) by {
                    lemma_repr_below(rp, ls[a] as int);
                    lemma_repr_below(rp, ls[b] as int);
                    let ra = repr_of(rp, ls[a] as int) as u32;
                    let rb = repr_of(rp, ls[b] as int) as u32;
                    lemma_xor_one(ra);
                    lemma_xor_one(rb);
                    if a == j as int && b == j as int {
                    } else if a == j as int || b == j as int {
                        let other = if a == j as int { b } else { a };
                        let ro = repr_of(rp, ls[other] as int) as u32;
                        lemma_xor_one(ro);
                        assert(an0.contains(ro));
                        if ra == spec_not(rb) {
                            assert(ro == spec_not(r));
                            if present {
                                let k = choose|k: int| 0 <= k < j && values@[#[trigger] ls[k] as int] == 0
                                    && repr_of(rp, ls[k] as int) == r;
                                assert(repr_of(rp, ls[k] as int) != spec_not(repr_of(rp, ls[other] as int) as u32));
                            } else {
                                assert(!an0.contains(r ^ 1));
                            }
                        }
                    }
                }
            }
        }
        j += 1;
    }
    proof {
        assert(!some_true(ls, values@));
        assert(!opposite_reprs(ls, values@, rp)) by {
            if opposite_reprs(ls, values@, rp) {
                let (a, b) = choose|a: int, b: int| 0 <= a < ls.len() && 0 <= b < ls.len() && values@[#[trigger] ls[a] as int] == 0
                    && values@[#[trigger] ls[b] as int] == 0 && repr_of(rp, ls[a] as int) == spec_not(repr_of(rp, ls[b] as int) as u32);
                assert(false);
            }
        }
    }
    if !mt {
        proof {
            assert(!some_matchable(ls, values@, matchable@));
        }
        return MatchCandidate::Unmatchable;
    }
    proof {
        assert(some_matchable(ls, values@, matchable@));
        assert(an@.to_set() =~= unassigned_reprs(ls, values@, rp));
        an@.unique_seq_to_set();
    }
    MatchCandidate::Candidate(an.len())
}

/// How many entries of `s` are set.
pub open spec fn count_set(s: Seq<bool>) -> nat
    decreases s.len(),
{
    if s.len() == 0 {
        0
    } else {
        count_set(s.drop_last()) + if s.last() { 1nat } else { 0nat }
    }
}

/// Setting an unset entry counts one more.
proof fn lemma_count_set_update(s: Seq<bool>, x: int)
    requires
        0 <= x < s.len(),
        !s[x],
    ensures
        count_set(s.update(x, true)) == count_set(s) + 1,
        count_set(s) <= s.len(),
    decreases s.len(),
{
    let t = s.update(x, true);
    if x == s.len() - 1 {
        assert(t.drop_last() == s.drop_last());
        lemma_count_set_le(s.drop_last());
    } else {
        assert(t.drop_last() == s.drop_last().update(x, true));
        lemma_count_set_update(s.drop_last(), x);
    }
}

/// No more entries are set than there are.
proof fn lemma_count_set_le(s: Seq<bool>)
    ensures
        count_set(s) <= s.len(),
    decreases s.len(),
{
    if s.len() > 0 {
        lemma_count_set_le(s.drop_last());
    }
}

/// Variable `v` is matchable: an active variable whose positive literal
/// has another representative, or the variable of that representative.
pub open spec fn matchable_var(repr: Seq<u32>, active: Seq<bool>, v: int) -> bool {
    exists|i: int| 0 <= i < active.len() && #[trigger] active[i] && repr_of(repr, 2 * i) != 2 * i
        && (v == i || v == repr_of(repr, 2 * i) / 2)
}

/// The matchable variables (see `matchable_var`) and how many there are.
pub fn matchable_variables(closure: &Closure, active: &Vec<bool>) -> (r: (Vec<bool>, usize))
    requires
        repr_ok(closure.repr@),
        2 * active@.len() <= closure.repr@.len(),
        closure.repr@.len() <= u32::MAX,
    ensures
        r.0@.len() == active@.len(),
        forall|v: int| 0 <= v < active@.len() ==> #[trigger] r.0@[v] == matchable_var(closure.repr@, active@, v),
        r.1 == count_set(r.0@),
{
    let ghost rp = closure.repr@;
    let n = active.len();
    let mut m: Vec<bool> = Vec::new();
    while m.len() < n
        invariant
            m@.len() <= n,
            forall|v: int| 0 <= v < m@.len() ==> !#[trigger] m@[v],
        decreases n - m@.len(),
    {
        m.push(false);
        proof {
            assert(m@.drop_last().len() < m@.len());
        }
    }
    proof {
        assert(count_set(m@) == 0) by {
            assert forall|q: int| 0 <= q <= m@.len() implies count_set(#[trigger] m@.take(q)) == 0 by {
                lemma_count_set_zero(m@, q);
            }
            assert(m@.take(m@.len() as int) == m@);
        }
    }
    let mut count: usize = 0;
    let mut i: usize = 0;
    while i < n
        invariant
            rp == closure.repr@,
            repr_ok(rp),
            n == active@.len(),
            2 * n <= rp.len(),
            rp.len() <= u32::MAX,
            i <= n,
            m@.len() == n,
            count == count_set(m@),
            forall|v: int| 0 <= v < n ==> #[trigger] m@[v] == exists|w: int| 0 <= w < i && #[trigger] active@[w]
                && repr_of(rp, 2 * w) != 2 * w && (v == w || v == repr_of(rp, 2 * w) / 2),
        decreases n - i,
    {
        if active[i] {
            proof {
                lemma_repr_below(rp, 2 * i as int);
            }
            let l = (2 * i) as u32;
            let r = find_repr(closure, l);
            if l != r {
                let ri = (r / 2) as usize;
                let ghost m0 = m@;
                if !m[i] {
                    proof {
                        lemma_count_set_update(m@, i as int);
                    }
                    m.set(i, true);
                    proof {
                        lemma_count_set_le(m@);
                    }
                    count = count + 1;
                }
                if !m[ri] {
                    proof {
                        lemma_count_set_update(m@, ri as int);
                        lemma_count_set_le(m@);
                    }
                    m.set(ri, true);
                    proof {
                        lemma_count_set_le(m@);
                    }
                    count = count + 1;
                }
                proof {
                    lemma_count_set_le(m@);
                    assert forall|v: int| 0 <= v < n implies #[trigger] m@[v] == exists|w: int| 0 <= w < i + 1 && #[trigger] active@[w]
                        && repr_of(rp, 2 * w) != 2 * w && (v == w || v == repr_of(rp, 2 * w) / 2) by {
                        if v != i && v != ri {
                            assert(m@[v] == m0[v]);
                        }
                        if v == i || v == ri {
                            assert(active@[i as int] && repr_of(rp, 2 * i as int) != 2 * i);
                        }
                    }
                }
            } else {
                proof {
                    assert forall|v: int| 0 <= v < n implies #[trigger] m@[v] == exists|w: int| 0 <= w < i + 1 && #[trigger] active@[w]
                        && repr_of(rp, 2 * w) != 2 * w && (v == w || v == repr_of(rp, 2 * w) / 2) by {
                        if exists|w: int| 0 <= w < i + 1 && #[trigger] active@[w] && repr_of(rp, 2 * w) != 2 * w
                            && (v == w || v == repr_of(rp, 2 * w) / 2) {
                            let w = choose|w: int| 0 <= w < i + 1 && #[trigger] active@[w] && repr_of(rp, 2 * w) != 2 * w
                                && (v == w || v == repr_of(rp, 2 * w) / 2);
                            assert(w != i);
                        }
                    }
                }
            }
        } else {
            proof {
                assert forall|v: int| 0 <= v < n implies #[trigger] m@[v] == exists|w: int| 0 <= w < i + 1 && #[trigger] active@[w]
                    && repr_of(rp, 2 * w) != 2 * w && (v == w || v == repr_of(rp, 2 * w) / 2) by {
                    if exists|w: int| 0 <= w < i + 1 && #[trigger] active@[w] && repr_of(rp, 2 * w) != 2 * w
                        && (v == w || v == repr_of(rp, 2 * w) / 2) {
                        let w = choose|w: int| 0 <= w < i + 1 && #[trigger] active@[w] && repr_of(rp, 2 * w) != 2 * w
                            && (v == w || v == repr_of(rp, 2 * w) / 2);
                        assert(w != i);
                    }
                }
            }
        }
        i += 1;
    }
    (m, count)
}

/// A sequence of unset entries counts none.
proof fn lemma_count_set_zero(s: Seq<bool>, q: int)
    requires
        0 <= q <= s.len(),
        forall|v: int| 0 <= v < s.len() ==> !#[trigger] s[v],
    ensures
        count_set(s.take(q)) == 0,
    decreases q,
{
    if q > 0 {
        assert(s.take(q).drop_last() == s.take(q - 1));
        lemma_count_set_zero(s, q - 1);
    }
}

} // verus!

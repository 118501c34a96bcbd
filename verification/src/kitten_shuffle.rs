//! Shuffling the decision queue, the watch lists and the unit klauses of
//! `kitten` with its generator.
use vstd::prelude::*;
use crate::random::{pick_random, lcg_step};
use crate::seqs::{is_permutation, permuted};
use crate::kitten::{
    Kitten, Katch, Klause, MAX_KLAUSES, queue_ok, search_ok, dequeue, enqueue, update_search, lemma_linked_empty,
    lemma_linked_at, lemma_stamped_remove, lemma_remove_no_duplicates, lemma_queue_search_frame, lemma_wf_sizes,
    lemma_wf_parts, lemma_wf_core_queue, lemma_wf_core_watches, lemma_wf_core_units, lemma_put_back,
    lemma_watch_list_len, watch_list_ok, watches_ok, katch_ok,
};

verus! {

/// The number `pick_random` draws from `[0, n)` with generator `g`.
#[verifier::opaque]
pub open spec fn random_below(g: u64, n: int) -> int {
    if n <= 0 {
        0
    } else {
        (n * ((lcg_step(g) / 0x1_0000_0000) as int)) / 0x1_0000_0000
    }
}

/// The generator after that draw.
pub open spec fn random_next(g: u64, n: int) -> u64 {
    if n <= 0 { g } else { lcg_step(g) }
}

/// The first `n` steps of the shuffle of `s` with generator `g`: step `i`
/// swaps position `i` with a position drawn from `[0, i)`. The shuffled
/// sequence and the generator after it.
#[verifier::opaque]
pub open spec fn shuffled<T>(s: Seq<T>, g: u64, n: int) -> (Seq<T>, u64)
    decreases n,
{
    if n <= 0 {
        (s, g)
    } else {
        let (t, h) = shuffled(s, g, n - 1);
        let i = n - 1;
        let j = random_below(h, i);
        (t.update(i, t[j]).update(j, t[i]), random_next(h, i))
    }
}

/// A draw from `[0, n)` is in `[0, n)`.
proof fn lemma_random_below(g: u64, n: int)
    requires
        n > 0,
    ensures
        0 <= random_below(g, n) < n,
{
    reveal(random_below);
    let x = (lcg_step(g) / 0x1_0000_0000) as int;
    assert(0 <= x < 0x1_0000_0000);
    assert(0 <= n * x < n * 0x1_0000_0000) by (nonlinear_arith)
        requires
            0 <= x < 0x1_0000_0000,
            n > 0,
    ;
}

proof fn lemma_shuffled_len<T>(s: Seq<T>, g: u64, n: int)
    requires
        n <= s.len(),
    ensures
        shuffled(s, g, n).0.len() == s.len(),
    decreases n,
{
    reveal(shuffled);
    if n > 0 {
        lemma_shuffled_len(s, g, n - 1);
        let h = shuffled(s, g, n - 1).1;
        if n - 1 > 0 {
            lemma_random_below(h, n - 1);
        } else {
            reveal(random_below);
        }
    }
}

/// Shuffles `a` in place with the generator: each position in turn is
/// swapped with a random earlier one.
fn shuffle_array<T: Copy>(generator: &mut u64, a: &mut Vec<T>)
    requires
        old(a)@.len() <= u32::MAX,
    ensures
        (final(a)@, *final(generator)) == shuffled(old(a)@, *old(generator), old(a)@.len() as int),
        exists|perm: Seq<int>| permuted(final(a)@, old(a)@, perm),
{
    let size = a.len();
    let mut i: usize = 0;
    let ghost mut perm: Seq<int> = Seq::new(size as nat, |x: int| x);
    proof {
        reveal(shuffled);
    }
    while i < size
        invariant
            size == old(a)@.len() <= u32::MAX,
            a@.len() == size,
            i <= size,
            (a@, *generator) == shuffled(old(a)@, *old(generator), i as int),
            is_permutation(perm, size as int),
            forall|x: int| 0 <= x < size ==> a@[x] == old(a)@[#[trigger] perm[x]],
        decreases size - i,
    {
        proof {
            lemma_shuffled_len(old(a)@, *old(generator), i as int);
        }
        let ghost t = a@;
        let ghost h = *generator;
        let j = pick_random(generator, 0, i as u32) as usize;
        proof {
            reveal(random_below);
            assert(j as int == random_below(h, i as int));
            assert(*generator == random_next(h, i as int));
            if i > 0 {
                lemma_random_below(h, i as int);
            }
        }
        if j != i {
            let x = a[i];
            let y = a[j];
            a.set(i, y);
            a.set(j, x);
            proof {
                let p2 = perm.update(i as int, perm[j as int]).update(j as int, perm[i as int]);
                assert forall|x: int| 0 <= x < size implies a@[x] == old(a)@[#[trigger] p2[x]] by {
                    if x == i {
                        assert(p2[x] == perm[j as int]);
                    } else if x == j {
                        assert(p2[x] == perm[i as int]);
                    } else {
                        assert(p2[x] == perm[x]);
                    }
                }
                assert forall|x: int, y: int| 0 <= x < size && 0 <= y < size && x != y implies #[trigger] p2[x] != #[trigger] p2[y] by {
                    let px = if x == i { j as int } else if x == j { i as int } else { x };
                    let py = if y == i { j as int } else if y == j { i as int } else { y };
                    assert(p2[x] == perm[px] && p2[y] == perm[py]);
                }
                perm = p2;
            }
        }
        proof {
            reveal(shuffled);
            assert(a@ =~= t.update(i as int, t[j as int]).update(j as int, t[i as int]));
        }
        i += 1;
    }
    proof {
        assert(permuted(a@, old(a)@, perm));
    }
}


/// The queue `o` with variable `v` moved to its end.
pub open spec fn requeued(o: Seq<u32>, v: u32) -> Seq<u32> {
    o.remove(o.index_of(v)).push(v)
}

/// The first `n` steps of the shuffle of the queue `o` of `vars` variables
/// with generator `g`: each step moves a random variable to the end. The
/// shuffled queue and the generator after it.
#[verifier::opaque]
pub open spec fn shuffled_queue(o: Seq<u32>, g: u64, vars: int, n: int) -> (Seq<u32>, u64)
    decreases n,
{
    if n <= 0 {
        (o, g)
    } else {
        let (p, h) = shuffled_queue(o, g, vars, n - 1);
        (requeued(p, random_below(h, vars) as u32), random_next(h, vars))
    }
}

/// Moves variable `idx` to the end of the decision queue.
#[verifier::rlimit(60)]
fn requeue(kitten: &mut Kitten, idx: u32)
    requires
        queue_ok(old(kitten).links@, old(kitten).queue, old(kitten).order@, old(kitten).nvars()),
        old(kitten).links@.len() <= 0x8000_0000,
        (idx as int) < old(kitten).nvars(),
    ensures
        queue_ok(final(kitten).links@, final(kitten).queue, final(kitten).order@, final(kitten).nvars()),
        final(kitten).order@ == requeued(old(kitten).order@, idx),
        final(kitten).links@.len() == old(kitten).links@.len(),
        *final(kitten) == (Kitten { links: final(kitten).links, queue: final(kitten).queue, order: final(kitten).order, ..*old(kitten) }),
{
    let ghost o = kitten.order@;
    let ghost n = kitten.nvars();
    proof {
        assert(o.contains((idx as int) as u32));
        lemma_linked_empty(kitten.links@, kitten.queue, o);
    }
    let ghost k = o.index_of(idx);
    let ghost l0 = kitten.links@;
    let ghost q0 = kitten.queue;
    dequeue(&mut kitten.links, &mut kitten.queue, idx, Ghost(o), Ghost(k));
    proof {
        lemma_stamped_remove(l0, kitten.links@, q0, kitten.queue, o, k);
        lemma_remove_no_duplicates(o, k);
        assert forall|x: int| 0 <= x < o.remove(k).len() implies (#[trigger] o.remove(k)[x] as int) < kitten.links@.len() by {
            let x2 = if x < k { x } else { x + 1 };
            assert(o.remove(k)[x] == o[x2]);
        }
        assert(!o.remove(k).contains(idx)) by {
            if o.remove(k).contains(idx) {
                let x = choose|x: int| 0 <= x < o.remove(k).len() && o.remove(k)[x] == idx;
                let x2 = if x < k { x } else { x + 1 };
                assert(o[x2] == idx);
            }
        }
    }
    enqueue(&mut kitten.links, &mut kitten.queue, idx, Ghost(o.remove(k)));
    proof {
        let o2 = o.remove(k).push(idx);
        kitten.order = Ghost(o2);
        assert forall|v: int| 0 <= v < n implies #[trigger] o2.contains(v as u32) by {
            if v as u32 != idx {
                assert(o.contains(v as u32));
                let j0 = choose|j: int| 0 <= j < o.len() && o[j] == v as u32;
                let j = if j0 < k { j0 } else { j0 - 1 };
                assert(o2[j] == v as u32);
            } else {
                assert(o2[o2.len() - 1] == idx);
            }
        }
        assert forall|i: int| 0 <= i < o2.len() implies (#[trigger] o2[i] as int) < n by {
            if i < o2.len() - 1 {
                let i2 = if i < k { i } else { i + 1 };
                assert(o2[i] == o[i2]);
            }
        }
    }
}

/// One more step of the queue shuffle.
proof fn lemma_shuffled_queue_step(o: Seq<u32>, g: u64, vars: int, n: int)
    requires
        n >= 0,
    ensures
        shuffled_queue(o, g, vars, n + 1) == (requeued(shuffled_queue(o, g, vars, n).0,
            random_below(shuffled_queue(o, g, vars, n).1, vars) as u32), random_next(shuffled_queue(o, g, vars, n).1, vars)),
        shuffled_queue(o, g, vars, 0) == (o, g),
{
    reveal(shuffled_queue);
}

/// What `pick_random` draws from `[0, n)` is `random_below`.
proof fn lemma_pick_below(g: u64, n: u32)
    requires
        n > 0,
    ensures
        0 + (((n - 0) as int) * ((lcg_step(g) / 0x1_0000_0000) as int)) / 0x1_0000_0000 == random_below(g, n as int),
{
    reveal(random_below);
}

/// Moves as many random variables to the end of the decision queue as
/// there are variables, and puts the search cursor at the end.
#[verifier::rlimit(60)]
fn shuffle_queue(kitten: &mut Kitten)
    requires
        old(kitten).wf(),
    ensures
        final(kitten).wf(),
        (final(kitten).order@, final(kitten).generator) == shuffled_queue(old(kitten).order@, old(kitten).generator, old(kitten).nvars(), old(kitten).nvars()),
        *final(kitten) == (Kitten { links: final(kitten).links, queue: final(kitten).queue, order: final(kitten).order, generator: final(kitten).generator, ..*old(kitten) }),
{
    proof {
        lemma_wf_sizes(kitten);
        lemma_wf_parts(kitten);
    }
    let ghost k0 = *kitten;
    let vars = (kitten.lits / 2) as u32;
    let mut i: u32 = 0;
    proof {
        lemma_shuffled_queue_step(k0.order@, k0.generator, vars as int, 0);
    }
    while i < vars
        invariant
            vars as int == kitten.nvars(),
            i <= vars,
            queue_ok(kitten.links@, kitten.queue, kitten.order@, kitten.nvars()),
            kitten.links@.len() == k0.links@.len(),
            kitten.links@.len() <= 0x8000_0000,
            kitten.order@ == shuffled_queue(k0.order@, k0.generator, vars as int, i as int).0,
            kitten.generator == shuffled_queue(k0.order@, k0.generator, vars as int, i as int).1,
            *kitten == (Kitten { links: kitten.links, queue: kitten.queue, order: kitten.order, generator: kitten.generator, ..k0 }),
        decreases vars - i,
    {
        let ghost h = kitten.generator;
        let idx = pick_random(&mut kitten.generator, 0, vars);
        proof {
            lemma_pick_below(h, vars);
            lemma_shuffled_queue_step(k0.order@, k0.generator, vars as int, i as int);
        }
        requeue(kitten, idx);
        i += 1;
    }
    let last = kitten.queue.last;
    let ghost q1 = kitten.queue;
    update_search(&mut kitten.queue, last);
    proof {
        let k = *kitten;
        let o = k.order@;
        lemma_queue_search_frame(k.links@, q1, k.queue, o);
        lemma_linked_empty(k.links@, q1, o);
        if o.len() > 0 {
            lemma_linked_at(k.links@, q1, o, o.len() - 1);
        }
        assert forall|i: int, j: int| 0 <= i < j < o.len() && o[i] == k.queue.search implies k.values@[2 * o[j]] != 0 by {
            lemma_linked_at(k.links@, q1, o, o.len() - 1);
            assert(o[i] == o[o.len() - 1]);
        }
        lemma_wf_core_queue(k0, k);
    }
}

/// Shuffles a watch list of literal `l`, which stays well formed.
fn shuffle_watch_list(generator: &mut u64, ws: &mut Vec<Katch>, Ghost(l): Ghost<int>, Ghost(ks): Ghost<Seq<Klause>>, Ghost(lits): Ghost<int>)
    requires
        watch_list_ok(old(ws)@, l, ks, lits),
        ks.len() < MAX_KLAUSES,
    ensures
        watch_list_ok(final(ws)@, l, ks, lits),
        (final(ws)@, *final(generator)) == shuffled(old(ws)@, *old(generator), old(ws)@.len() as int),
{
    proof {
        lemma_watch_list_len(old(ws)@, l, ks, lits);
    }
    let ghost w0 = ws@;
    shuffle_array(generator, ws);
    proof {
        let perm = choose|perm: Seq<int>| permuted(ws@, w0, perm);
        assert forall|j: int| 0 <= j < ws@.len() implies katch_ok(#[trigger] ws@[j], l, ks, lits) by {
            assert(ws@[j] == w0[perm[j]]);
        }
        assert forall|a: int, b: int| 0 <= a < ws@.len() && 0 <= b < ws@.len() && a != b implies
            #[trigger] ws@[a].spec_ref() != #[trigger] ws@[b].spec_ref() by {
            assert(ws@[a] == w0[perm[a]] && ws@[b] == w0[perm[b]]);
            assert(perm[a] != perm[b]);
        }
    }
}

/// The contents of the watch lists.
pub open spec fn watch_views(ws: Seq<Vec<Katch>>) -> Seq<Seq<Katch>> {
    ws.map_values(|w: Vec<Katch>| w@)
}

/// The first `n` watch lists shuffled one after the other, each with the
/// generator as the previous one left it, and the generator afterwards.
pub open spec fn shuffled_lists(ws: Seq<Seq<Katch>>, g: u64, n: int) -> (Seq<Seq<Katch>>, u64)
    decreases n,
{
    if n <= 0 {
        (ws, g)
    } else {
        let (w, h) = shuffled_lists(ws, g, n - 1);
        let (x, h2) = shuffled(w[n - 1], h, w[n - 1].len() as int);
        (w.update(n - 1, x), h2)
    }
}

/// Lists from `n` on are left as they are.
proof fn lemma_shuffled_lists_len(ws: Seq<Seq<Katch>>, g: u64, n: int)
    requires
        0 <= n <= ws.len(),
    ensures
        shuffled_lists(ws, g, n).0.len() == ws.len(),
        forall|i: int| n <= i < ws.len() ==> #[trigger] shuffled_lists(ws, g, n).0[i] == ws[i],
    decreases n,
{
    if n > 0 {
        lemma_shuffled_lists_len(ws, g, n - 1);
    }
}


/// Shuffles every watch list.
fn shuffle_katches(kitten: &mut Kitten)
    requires
        old(kitten).wf(),
    ensures
        final(kitten).wf(),
        *final(kitten) == (Kitten { watches: final(kitten).watches, generator: final(kitten).generator, ..*old(kitten) }),
        (watch_views(final(kitten).watches@), final(kitten).generator)
            == shuffled_lists(watch_views(old(kitten).watches@), old(kitten).generator, old(kitten).lits as int),
{
    proof {
        lemma_wf_sizes(kitten);
        lemma_wf_parts(kitten);
    }
    let ghost k0 = *kitten;
    let lits = kitten.lits;
    let mut l: usize = 0;
    while l < lits
        invariant
            lits == k0.lits,
            l <= lits,
            k0.wf(),
            k0.klauses@.len() < MAX_KLAUSES,
            lits <= kitten.watches@.len(),
            kitten.watches@.len() == k0.watches@.len(),
            watches_ok(kitten.watches@, k0.klauses@, lits as int),
            *kitten == (Kitten { watches: kitten.watches, generator: kitten.generator, ..k0 }),
            (watch_views(kitten.watches@), kitten.generator) == shuffled_lists(watch_views(k0.watches@), k0.generator, l as int),
        decreases lits - l,
    {
        let ghost old_view = watch_views(kitten.watches@);
        let mut ws: Vec<Katch> = Vec::new();
        std::mem::swap(&mut ws, &mut kitten.watches[l]);
        let ghost wsv = kitten.watches@;
        proof {
            assert(ws@ == old_view[l as int]);
        }
        proof {
            assert(watch_list_ok(ws@, l as int, k0.klauses@, lits as int));
        }
        shuffle_watch_list(&mut kitten.generator, &mut ws, Ghost(l as int), Ghost(k0.klauses@), Ghost(lits as int));
        proof {
            lemma_put_back(wsv, k0.klauses@, lits as int, l as int, ws);
        }
        kitten.watches.set(l, ws);
        proof {
            lemma_shuffled_lists_len(watch_views(k0.watches@), k0.generator, l as int);
            assert(watch_views(kitten.watches@) =~= old_view.update(l as int, ws@));
        }
        l += 1;
    }
    proof {
        lemma_wf_core_watches(k0, *kitten);
    }
}

/// Shuffles the unit klauses.
fn shuffle_units(kitten: &mut Kitten)
    requires
        old(kitten).wf(),
    ensures
        final(kitten).wf(),
        old(kitten).units@.len() <= u32::MAX ==> (final(kitten).units@, final(kitten).generator) == shuffled(old(kitten).units@, old(kitten).generator, old(kitten).units@.len() as int),
        old(kitten).units@.len() > u32::MAX ==> *final(kitten) == *old(kitten),
        *final(kitten) == (Kitten { units: final(kitten).units, generator: final(kitten).generator, ..*old(kitten) }),
{
    proof {
        lemma_wf_parts(kitten);
    }
    let ghost k0 = *kitten;
    if kitten.units.len() > 0xffff_ffff {
        return;
    }
    let mut units: Vec<u32> = Vec::new();
    std::mem::swap(&mut units, &mut kitten.units);
    shuffle_array(&mut kitten.generator, &mut units);
    kitten.units = units;
    proof {
        let u0 = k0.units@;
        let perm = choose|perm: Seq<int>| permuted(kitten.units@, u0, perm);
        assert forall|i: int| 0 <= i < kitten.units@.len() implies (#[trigger] kitten.units@[i] as int) < kitten.klauses@.len()
            && kitten.klauses@[kitten.units@[i] as int].lits@.len() == 1 by {
            assert(kitten.units@[i] == u0[perm[i]]);
        }
        lemma_wf_core_units(k0, *kitten);
    }
}

/// Shuffles the decision queue, the watch lists and the unit klauses with
/// the generator (status 0).
pub fn kitten_shuffle_clauses(kitten: &mut Kitten)
    requires
        old(kitten).wf(),
        old(kitten).status == 0,
    ensures
        final(kitten).wf(),
        final(kitten).klauses == old(kitten).klauses,
        final(kitten).values == old(kitten).values,
        final(kitten).lits == old(kitten).lits,
        final(kitten).import == old(kitten).import,
        final(kitten).evars == old(kitten).evars,
        final(kitten).status == 0,
        ({
            let (o, g1) = shuffled_queue(old(kitten).order@, old(kitten).generator, old(kitten).nvars(), old(kitten).nvars());
            let (w, g2) = shuffled_lists(watch_views(old(kitten).watches@), g1, old(kitten).lits as int);
            &&& final(kitten).order@ == o
            &&& watch_views(final(kitten).watches@) == w
            &&& (final(kitten).units@, final(kitten).generator) == (if old(kitten).units@.len() <= u32::MAX {
                shuffled(old(kitten).units@, g2, old(kitten).units@.len() as int)
            } else {
                (old(kitten).units@, g2)
            })
        }),
{
    shuffle_queue(kitten);
    shuffle_katches(kitten);
    shuffle_units(kitten);
}

} // verus!

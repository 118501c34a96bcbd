//! The links of the variable move-to-front queue.
use vstd::prelude::*;

verus! {

/// Marks a missing neighbour.
pub const DISCONNECT: u32 = 0xffff_ffff;

/// Whether a link is missing.
pub open spec fn spec_disconnected(i: u32) -> bool {
    i == DISCONNECT
}

pub fn disconnected(i: u32) -> (r: bool)
    ensures
        r == spec_disconnected(i),
{
    i == DISCONNECT
}

/// The neighbours and enqueue time of a variable.
#[derive(Clone, Copy)]
pub struct Links {
    pub prev: u32,
    pub next: u32,
    pub stamp: u32,
}

/// The search cursor of the queue.
#[derive(Clone, Copy)]
pub struct Search {
    pub idx: u32,
    pub stamp: u32,
}

/// The queue: first and last variable, the stamp counter and the cursor.
#[derive(Clone, Copy)]
pub struct Queue {
    pub first: u32,
    pub last: u32,
    pub stamp: u32,
    pub search: Search,
}

/// Whether the links form a doubly linked list that visits `order` from
/// `first` to `last`.
pub open spec fn linked(links: Seq<Links>, queue: Queue, order: Seq<u32>) -> bool {
    &&& order.len() == 0 ==> queue.first == DISCONNECT && queue.last == DISCONNECT
    &&& order.len() > 0 ==> queue.first == order[0] && queue.last == order.last()
    &&& forall|i: int| 0 <= i < order.len() ==> (order[i] as int) < links.len() && order[i] != DISCONNECT
    &&& order.no_duplicates()
    &&& forall|i: int|
        #![trigger order[i]]
        0 <= i < order.len() ==> links[order[i] as int].prev == (if i == 0 {
            DISCONNECT
        } else {
            order[i - 1]
        }) && links[order[i] as int].next == (if i == order.len() - 1 {
            DISCONNECT
        } else {
            order[i + 1]
        })
}

/// Unlinks variable `i` from the queue: its neighbours are joined and its
/// own links are cleared; no other links change.
pub fn dequeue_links(i: u32, links: &mut Vec<Links>, queue: &mut Queue, Ghost(order): Ghost<Seq<u32>>, Ghost(k): Ghost<int>)
    requires
        linked(old(links)@, *old(queue), order),
        0 <= k < order.len(),
        order[k] == i,
    ensures
        linked(final(links)@, *final(queue), order.remove(k)),
        final(links)@[i as int].prev == DISCONNECT,
        final(links)@[i as int].next == DISCONNECT,
        final(links)@.len() == old(links)@.len(),
        forall|v: int| 0 <= v < old(links)@.len() ==> final(links)@[v].stamp == old(links)@[v].stamp,
        final(queue).stamp == old(queue).stamp,
        final(queue).search == old(queue).search,
        forall|v: int| 0 <= v < old(links)@.len() && v != i && (k == 0 || v != order[k - 1])
            && (k == order.len() - 1 || v != order[k + 1]) ==> #[trigger] final(links)@[v] == old(links)@[v],
{
    let ghost old_links = links@;
    let j = links[i as usize].prev;
    let n = links[i as usize].next;
    links[i as usize].prev = DISCONNECT;
    links[i as usize].next = DISCONNECT;
    if disconnected(j) {
        queue.first = n;
    } else {
        links[j as usize].next = n;
    }
    if disconnected(n) {
        queue.last = j;
    } else {
        links[n as usize].prev = j;
    }
    proof {
        lemma_linked_remove(old_links, *old(queue), order, k, links@, *queue);
        assert(order[k] == i);
        if k > 0 {
            assert(j == order[k - 1]);
        }
        if k < order.len() - 1 {
            assert(n == order[k + 1]);
        }
        assert forall|v: int| 0 <= v < old_links.len() && v != i && (k == 0 || v != order[k - 1])
            && (k == order.len() - 1 || v != order[k + 1]) implies #[trigger] links@[v] == old_links[v] by {
            if !spec_disconnected(j) {
                assert(k > 0);
            }
            if !spec_disconnected(n) {
                assert(k < order.len() - 1);
            }
        }
    }
}

/// Removing an element keeps a sequence free of duplicates.
pub proof fn lemma_remove_no_duplicates<A>(o: Seq<A>, k: int)
    requires
        o.no_duplicates(),
        0 <= k < o.len(),
    ensures
        o.remove(k).no_duplicates(),
        forall|x: A| o.remove(k).contains(x) <==> (o.contains(x) && x != o[k]),
{
    let r = o.remove(k);
    assert forall|a: int, b: int| 0 <= a < r.len() && 0 <= b < r.len() && a != b implies r[a] != r[b] by {
        let a2 = if a < k { a } else { a + 1 };
        let b2 = if b < k { b } else { b + 1 };
        assert(r[a] == o[a2] && r[b] == o[b2]);
    }
    assert forall|x: A| r.contains(x) <==> (o.contains(x) && x != o[k]) by {
        if r.contains(x) {
            let a = choose|a: int| 0 <= a < r.len() && r[a] == x;
            let a2 = if a < k { a } else { a + 1 };
            assert(o[a2] == x);
        }
        if o.contains(x) && x != o[k] {
            let a = choose|a: int| 0 <= a < o.len() && o[a] == x;
            let a2 = if a < k { a } else { a - 1 };
            assert(r[a2] == x);
        }
    }
}

#[verifier::rlimit(40)]
#[verifier::spinoff_prover]
proof fn lemma_linked_remove(old_links: Seq<Links>, q: Queue, o: Seq<u32>, k: int, nl: Seq<Links>, nq: Queue)
    requires
        linked(old_links, q, o),
        0 <= k < o.len(),
        nl.len() == old_links.len(),
        ({
            let i = o[k];
            let j = old_links[i as int].prev;
            let n = old_links[i as int].next;
            &&& nl[i as int].prev == DISCONNECT && nl[i as int].next == DISCONNECT
            &&& j != DISCONNECT ==> nl[j as int].next == n && nl[j as int].prev == old_links[j as int].prev
            &&& n != DISCONNECT ==> nl[n as int].prev == j && nl[n as int].next == old_links[n as int].next
            &&& forall|v: int| 0 <= v < nl.len() && v != i && v != j && v != n ==> nl[v] == old_links[v]
            &&& nq.first == (if j == DISCONNECT { n } else { q.first })
            &&& nq.last == (if n == DISCONNECT { j } else { q.last })
        }),
    ensures
        linked(nl, nq, o.remove(k)),
{
    let i = o[k];
    let r = o.remove(k);
    assert(old_links[o[k] as int].prev == (if k == 0 { DISCONNECT } else { o[k - 1] }));
    assert(old_links[o[k] as int].next == (if k == o.len() - 1 { DISCONNECT } else { o[k + 1] }));
    lemma_remove_no_duplicates(o, k);
    assert forall|x: int| #![trigger r[x]] 0 <= x < r.len() implies nl[r[x] as int].prev == (if x == 0 {
        DISCONNECT
    } else {
        r[x - 1]
    }) && nl[r[x] as int].next == (if x == r.len() - 1 {
        DISCONNECT
    } else {
        r[x + 1]
    }) by {
        let x2 = if x < k { x } else { x + 1 };
        assert(r[x] == o[x2]);
        assert(o[x2] != i);
        assert(old_links[o[x2] as int].prev == (if x2 == 0 { DISCONNECT } else { o[x2 - 1] }));
        assert(old_links[o[x2] as int].next == (if x2 == o.len() - 1 { DISCONNECT } else { o[x2 + 1] }));
        if k > 0 {
            assert(o[k - 1] != i);
        }
        if k < o.len() - 1 {
            assert(o[k + 1] != i);
        }
        if k > 0 && k < o.len() - 1 {
            assert(o[k - 1] != o[k + 1]);
        }
        if x > 0 {
            let y2 = if x - 1 < k { x - 1 } else { x };
            assert(r[x - 1] == o[y2]);
        }
        if x < r.len() - 1 {
            let y2 = if x + 1 < k { x + 1 } else { x + 2 };
            assert(r[x + 1] == o[y2]);
        }
        if x2 == k - 1 {
            assert(o[x2] == old_links[i as int].prev);
        } else if x2 == k + 1 {
            assert(o[x2] == old_links[i as int].next);
        } else {
            if k > 0 {
                assert(o[x2] != o[k - 1]);
            }
            if k < o.len() - 1 {
                assert(o[x2] != o[k + 1]);
            }
        }
    }
    if r.len() > 0 {
        if k == 0 {
            assert(r[0] == o[1]);
        } else {
            assert(r[0] == o[0]);
        }
        if k == o.len() - 1 {
            assert(r.last() == o[k - 1]);
        } else {
            assert(r.last() == o.last());
        }
    }
}

} // verus!

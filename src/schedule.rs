//! Kahn's algorithm on nodes numbered `0..n`, with links given as
//! `(source, destination)` pairs.

use vstd::prelude::*;
use vstd::set_lib::{lemma_int_range, lemma_len_subset, set_int_range};

verus! {

/// The number of links into `v` whose source is not yet done.
pub open spec fn pending(links: Seq<(usize, usize)>, done: Seq<bool>, v: usize) -> nat
    decreases links.len(),
{
    if links.len() == 0 {
        0
    } else {
        pending(links.drop_last(), done, v) + if links.last().1 == v && !done[links.last().0 as int] {
            1nat
        } else {
            0nat
        }
    }
}

/// Counting pending links distributes over concatenation.
pub proof fn lemma_pending_append(a: Seq<(usize, usize)>, b: Seq<(usize, usize)>, done: Seq<bool>, v: usize)
    ensures
        pending(a + b, done, v) == pending(a, done, v) + pending(b, done, v),
    decreases b.len(),
{
    if b.len() == 0 {
        assert(a + b =~= a);
    } else {
        lemma_pending_append(a, b.drop_last(), done, v);
        assert((a + b).drop_last() =~= a + b.drop_last());
    }
}

/// With nothing pending into `v`, every link into `v` comes from a done node.
pub proof fn lemma_pending_zero(links: Seq<(usize, usize)>, done: Seq<bool>, v: usize)
    requires
        pending(links, done, v) == 0,
    ensures
        forall|k: int| 0 <= k < links.len() && links[k].1 == v ==> done[links[k].0 as int],
    decreases links.len(),
{
    if links.len() > 0 {
        lemma_pending_zero(links.drop_last(), done, v);
        assert forall|k: int| 0 <= k < links.len() && links[k].1 == v implies done[links[k].0 as int] by {
            if k < links.len() - 1 {
                assert(links.drop_last()[k] == links[k]);
            }
        }
    }
}

/// Something pending into `v` is a link into `v` from a node not yet done.
pub proof fn lemma_pending_positive(links: Seq<(usize, usize)>, done: Seq<bool>, v: usize)
    requires
        pending(links, done, v) > 0,
    ensures
        exists|k: int| 0 <= k < links.len() && links[k].1 == v && !done[links[k].0 as int],
    decreases links.len(),
{
    if links.len() > 0 {
        let last = links.len() - 1;
        if links[last].1 == v && !done[links[last].0 as int] {
        } else {
            lemma_pending_positive(links.drop_last(), done, v);
            let k = choose|k: int|
                0 <= k < links.drop_last().len() && links.drop_last()[k].1 == v
                    && !done[links.drop_last()[k].0 as int];
            assert(links[k] == links.drop_last()[k]);
        }
    }
}

/// A pending count over one link.
pub proof fn lemma_pending_single(x: (usize, usize), done: Seq<bool>, v: usize)
    ensures
        pending(seq![x], done, v) == if x.1 == v && !done[x.0 as int] { 1nat } else { 0nat },
{
    assert(seq![x].drop_last() =~= Seq::<(usize, usize)>::empty());
    assert(seq![x].last() == x);
    assert(pending(Seq::<(usize, usize)>::empty(), done, v) == 0);
}

/// What a sequence contains after a push.
pub proof fn lemma_push_contains(q: Seq<usize>, x: usize, w: usize)
    ensures
        q.push(x).contains(w) <==> (q.contains(w) || w == x),
{
    if q.contains(w) {
        let j = choose|j: int| 0 <= j < q.len() && q[j] == w;
        assert(q.push(x)[j] == w);
    }
    if w == x {
        assert(q.push(x)[q.len() as int] == x);
    }
    if q.push(x).contains(w) && w != x {
        let j = choose|j: int| 0 <= j < q.len() + 1 && q.push(x)[j] == w;
        assert(q[j] == w);
    }
}

/// A sequence of distinct numbers below `n` has at most `n` elements.
pub proof fn lemma_distinct_below(q: Seq<usize>, n: usize)
    requires
        q.no_duplicates(),
        forall|j: int| 0 <= j < q.len() ==> q[j] < n,
    ensures
        q.len() <= n,
{
    let qi = q.map_values(|x: usize| x as int);
    assert(qi.no_duplicates()) by {
        assert forall|i: int, j: int| 0 <= i < qi.len() && 0 <= j < qi.len() && i != j implies qi[i]
            != qi[j] by {
            assert(q[i] != q[j]);
        }
    }
    qi.unique_seq_to_set();
    lemma_int_range(0, n as int);
    assert(qi.to_set().subset_of(set_int_range(0, n as int))) by {
        assert forall|x: int| qi.to_set().contains(x) implies set_int_range(0, n as int).contains(x) by {
            let j = choose|j: int| 0 <= j < qi.len() && qi[j] == x;
            assert(q[j] < n);
        }
    }
    lemma_len_subset(qi.to_set(), set_int_range(0, n as int));
}

/// A sequence of machine integers as mathematical integers.
pub open spec fn as_ints(s: Seq<usize>) -> Seq<int> {
    s.map_values(|x: usize| x as int)
}

/// Each node's number of incoming links.
pub open spec fn initial_indegrees(n: nat, links: Seq<(usize, usize)>) -> Seq<int> {
    Seq::new(n, |w: int| pending(links, Seq::new(n, |i: int| false), w as usize) as int)
}

/// The nodes below `v` with no incoming link left, in increasing number.
pub open spec fn ready_upto(indeg: Seq<int>, v: nat) -> Seq<usize>
    decreases v,
{
    if v == 0 {
        Seq::empty()
    } else {
        ready_upto(indeg, (v - 1) as nat) + if indeg[v - 1] == 0 {
            seq![(v - 1) as usize]
        } else {
            Seq::empty()
        }
    }
}

/// Taking node `u`: from link `k` on, each link out of `u` lowers its
/// destination's count, and a destination whose count reaches zero joins the
/// back of the queue.
pub open spec fn relax(
    links: Seq<(usize, usize)>,
    u: usize,
    k: nat,
    indeg: Seq<int>,
    queue: Seq<usize>,
) -> (Seq<int>, Seq<usize>)
    decreases links.len() - k,
{
    if k >= links.len() {
        (indeg, queue)
    } else if links[k as int].0 == u {
        let b = links[k as int].1;
        let d = indeg[b as int] - 1;
        relax(
            links,
            u,
            k + 1,
            indeg.update(b as int, d),
            if d == 0 { queue.push(b) } else { queue },
        )
    } else {
        relax(links, u, k + 1, indeg, queue)
    }
}

/// Takes the queued nodes from position `head` on, one at a time.
pub open spec fn kahn_run(
    links: Seq<(usize, usize)>,
    head: nat,
    indeg: Seq<int>,
    queue: Seq<usize>,
    fuel: nat,
) -> Seq<usize>
    decreases fuel,
{
    if fuel == 0 || head >= queue.len() {
        queue
    } else {
        let (indeg2, queue2) = relax(links, queue[head as int], 0, indeg, queue);
        kahn_run(links, head + 1, indeg2, queue2, (fuel - 1) as nat)
    }
}

/// The nodes in the order Kahn's algorithm takes them.
pub open spec fn kahn_spec(n: nat, links: Seq<(usize, usize)>) -> Seq<usize> {
    let indeg = initial_indegrees(n, links);
    kahn_run(links, 0, indeg, ready_upto(indeg, n), n)
}

/// Kahn's algorithm: nodes with no incoming link are ready, in increasing
/// number; the earliest ready node is taken next, and a node becomes ready,
/// behind those already waiting, once its last incoming link is taken.
///
/// The result lists the nodes taken, in order. Each link into a listed node
/// comes from a node listed earlier, and each node left out has a link from
/// another node left out.
pub fn kahn_order(n: usize, links: &Vec<(usize, usize)>) -> (queue: Vec<usize>)
    requires
        forall|k: int| 0 <= k < links@.len() ==> links@[k].0 < n && links@[k].1 < n,
    ensures
        queue@ == kahn_spec(n as nat, links@),
        queue@.no_duplicates(),
        forall|j: int| 0 <= j < queue@.len() ==> queue@[j] < n,
        forall|j: int, k: int|
            0 <= j < queue@.len() && 0 <= k < links@.len() && links@[k].1 == queue@[j]
                ==> queue@.subrange(0, j).contains(links@[k].0),
        forall|w: usize|
            w < n && !queue@.contains(w) ==> exists|k: int|
                0 <= k < links@.len() && links@[k].1 == w && !queue@.contains(links@[k].0),
{
    let mut indeg: Vec<usize> = Vec::new();
    let mut done: Vec<bool> = Vec::new();
    let mut v: usize = 0;
    while v < n
        invariant
            v <= n,
            indeg@.len() == v,
            done@.len() == v,
            forall|i: int| 0 <= i < v ==> indeg@[i] == 0 && !done@[i],
        decreases n - v,
    {
        indeg.push(0);
        done.push(false);
        v = v + 1;
    }
    let ghost none = done@;
    let mut k: usize = 0;
    while k < links.len()
        invariant
            k <= links@.len(),
            indeg@.len() == n,
            done@ == none,
            none.len() == n,
            forall|i: int| 0 <= i < n ==> !none[i],
            forall|k: int| 0 <= k < links@.len() ==> links@[k].0 < n && links@[k].1 < n,
            forall|w: usize| w < n ==> indeg@[w as int] == pending(links@.subrange(0, k as int), none, w),
            forall|w: int| 0 <= w < n ==> indeg@[w] <= k,
        decreases links@.len() - k,
    {
        let b = links[k].1;
        proof {
            assert(links@.subrange(0, k + 1).drop_last() =~= links@.subrange(0, k as int));
        }
        indeg.set(b, indeg[b] + 1);
        k = k + 1;
    }
    proof {
        assert(links@.subrange(0, links@.len() as int) =~= links@);
        assert(none =~= Seq::new(n as nat, |i: int| false));
        assert(as_ints(indeg@) =~= initial_indegrees(n as nat, links@));
    }
    let ghost ind0 = as_ints(indeg@);
    let mut queue: Vec<usize> = Vec::new();
    let mut v: usize = 0;
    while v < n
        invariant
            v <= n,
            indeg@.len() == n,
            forall|w: usize| w < n ==> indeg@[w as int] == pending(links@, none, w),
            queue@.no_duplicates(),
            forall|j: int| 0 <= j < queue@.len() ==> queue@[j] < v,
            forall|w: usize| w < n ==> (queue@.contains(w) <==> (w < v && indeg@[w as int] == 0)),
            as_ints(indeg@) == ind0,
            ind0.len() == n,
            queue@ == ready_upto(ind0, v as nat),
        decreases n - v,
    {
        if indeg[v] == 0 {
            let ghost q_old = queue@;
            proof {
                assert(!queue@.contains(v));
            }
            queue.push(v);
            proof {
                assert forall|w: usize| w < n implies (queue@.contains(w) <==> (w < v + 1 && indeg@[w as int] == 0)) by {
                    lemma_push_contains(q_old, v, w);
                }
                assert(ind0[v as int] == 0);
                assert(queue@ =~= ready_upto(ind0, v as nat) + seq![v]);
            }
        } else {
            proof {
                assert(ind0[v as int] != 0);
                assert(queue@ =~= ready_upto(ind0, v as nat) + Seq::<usize>::empty());
            }
        }
        v = v + 1;
    }
    proof {
        assert forall|j: int, k: int|
            0 <= j < queue@.len() && 0 <= k < links@.len() && links@[k].1 == queue@[j] implies queue@.subrange(
            0,
            j,
        ).contains(links@[k].0) by {
            assert(queue@.contains(queue@[j]));
            lemma_pending_zero(links@, none, queue@[j]);
        }
    }
    proof {
        assert(ind0 == initial_indegrees(n as nat, links@));
    }
    let mut head: usize = 0;
    while head < queue.len()
        invariant
            head <= n,
            kahn_run(links@, head as nat, as_ints(indeg@), queue@, (n - head) as nat) == kahn_spec(n as nat, links@),
            indeg@.len() == n,
            done@.len() == n,
            forall|k: int| 0 <= k < links@.len() ==> links@[k].0 < n && links@[k].1 < n,
            head <= queue@.len(),
            queue@.no_duplicates(),
            forall|j: int| 0 <= j < queue@.len() ==> queue@[j] < n,
            forall|w: usize| w < n ==> (done@[w as int] <==> queue@.subrange(0, head as int).contains(w)),
            forall|w: usize| w < n ==> indeg@[w as int] == pending(links@, done@, w),
            forall|w: usize| w < n ==> (queue@.contains(w) <==> indeg@[w as int] == 0),
            forall|j: int, k: int|
                0 <= j < queue@.len() && 0 <= k < links@.len() && links@[k].1 == queue@[j]
                    ==> queue@.subrange(0, j).contains(links@[k].0),
        decreases n - head,
    {
        proof {
            lemma_distinct_below(queue@, n);
        }
        let u = queue[head];
        let ghost done_old = done@;
        let ghost i_start = as_ints(indeg@);
        let ghost q_start = queue@;
        let ghost h_start = head as nat;
        proof {
            assert(!queue@.subrange(0, head as int).contains(u)) by {
                if queue@.subrange(0, head as int).contains(u) {
                    let j = choose|j: int| 0 <= j < head && queue@.subrange(0, head as int)[j] == u;
                    assert(queue@[j] == queue@[head as int]);
                }
            }
            assert(queue@.subrange(0, head + 1) =~= queue@.subrange(0, head as int).push(u));
        }
        done.set(u, true);
        head = head + 1;
        proof {
            assert forall|w: usize| w < n implies (done@[w as int] <==> queue@.subrange(0, head as int).contains(w)) by {
                lemma_push_contains(queue@.subrange(0, head - 1), u, w);
            }
            assert(links@.subrange(0, 0) =~= Seq::<(usize, usize)>::empty());
            assert(links@.subrange(0, links@.len() as int) =~= links@);
        }
        let mut k: usize = 0;
        while k < links.len()
            invariant
                indeg@.len() == n,
                done@.len() == n,
                done_old.len() == n,
                done@ == done_old.update(u as int, true),
                relax(links@, u, k as nat, as_ints(indeg@), queue@) == relax(links@, u, 0, i_start, q_start),
                u == q_start[h_start as int],
                !done_old[u as int],
                u < n,
                0 < head <= queue@.len(),
                k <= links@.len(),
                forall|k: int| 0 <= k < links@.len() ==> links@[k].0 < n && links@[k].1 < n,
                queue@.no_duplicates(),
                forall|j: int| 0 <= j < queue@.len() ==> queue@[j] < n,
                forall|w: usize| w < n ==> (done@[w as int] <==> queue@.subrange(0, head as int).contains(w)),
                forall|w: usize|
                    w < n ==> indeg@[w as int] == pending(links@.subrange(0, k as int), done@, w)
                        + pending(links@.subrange(k as int, links@.len() as int), done_old, w),
                forall|w: usize| w < n ==> (queue@.contains(w) <==> indeg@[w as int] == 0),
                forall|j: int, k: int|
                    0 <= j < queue@.len() && 0 <= k < links@.len() && links@[k].1 == queue@[j]
                        ==> queue@.subrange(0, j).contains(links@[k].0),
            decreases links@.len() - k,
        {
            let (a, b) = links[k];
            let ghost i_pre = as_ints(indeg@);
            let ghost q_pre = queue@;
            let ghost len = links@.len() as int;
            let ghost pre = links@.subrange(0, k as int);
            let ghost pre1 = links@.subrange(0, k + 1);
            let ghost suf = links@.subrange(k as int, len);
            let ghost suf1 = links@.subrange(k + 1, len);
            proof {
                assert(pre1.drop_last() =~= pre);
                assert(suf =~= seq![links@[k as int]] + suf1);
                assert forall|w: usize| w < n implies pending(suf, done_old, w) == (if b == w
                    && !done_old[a as int] {
                    1nat
                } else {
                    0nat
                }) + pending(suf1, done_old, w) by {
                    lemma_pending_append(seq![links@[k as int]], suf1, done_old, w);
                    lemma_pending_single(links@[k as int], done_old, w);
                }
            }
            if a == u {
                let d = indeg[b] - 1;
                indeg.set(b, d);
                if d == 0 {
                    proof {
                        lemma_pending_zero(pre1, done@, b);
                        lemma_pending_zero(suf1, done_old, b);
                        let qlen = queue@.len() as int;
                        assert forall|kk: int| 0 <= kk < links@.len() && links@[kk].1 == b implies queue@.subrange(
                            0,
                            qlen,
                        ).contains(links@[kk].0) by {
                            if kk < k + 1 {
                                assert(pre1[kk] == links@[kk]);
                            } else {
                                assert(suf1[kk - (k + 1)] == links@[kk]);
                            }
                            let x = links@[kk].0;
                            assert(done@[x as int]);
                            let i = choose|i: int|
                                0 <= i < head && queue@.subrange(0, head as int)[i] == x;
                            assert(queue@.subrange(0, qlen)[i] == x);
                        }
                    }
                    let ghost q_old = queue@;
                    queue.push(b);
                    proof {
                        assert forall|j: int| 0 <= j < q_old.len() implies queue@.subrange(0, j) =~= q_old.subrange(0, j) by {}
                        assert(queue@.subrange(0, head as int) =~= q_old.subrange(0, head as int));
                        assert(queue@.subrange(0, q_old.len() as int) =~= q_old);
                        assert forall|w: usize| w < n implies (queue@.contains(w) <==> indeg@[w as int] == 0) by {
                            lemma_push_contains(q_old, b, w);
                        }
                        assert forall|j: int, kk: int|
                            0 <= j < queue@.len() && 0 <= kk < links@.len() && links@[kk].1 == queue@[j]
                                implies queue@.subrange(0, j).contains(links@[kk].0) by {
                            if j < q_old.len() {
                                assert(queue@.subrange(0, j) =~= q_old.subrange(0, j));
                            }
                        }
                    }
                }
            }
            proof {
                if a == u {
                    let d = i_pre[b as int] - 1;
                    assert(as_ints(indeg@) =~= i_pre.update(b as int, d));
                    if d == 0 {
                        assert(queue@ == q_pre.push(b));
                    } else {
                        assert(queue@ == q_pre);
                    }
                } else {
                    assert(as_ints(indeg@) =~= i_pre);
                }
                assert(relax(links@, u, k as nat, i_pre, q_pre) == relax(
                    links@,
                    u,
                    (k + 1) as nat,
                    as_ints(indeg@),
                    queue@,
                ));
            }
            k = k + 1;
        }
        proof {
            assert(relax(links@, u, k as nat, as_ints(indeg@), queue@) == (as_ints(indeg@), queue@));
            assert(links@.subrange(0, links@.len() as int) =~= links@);
            assert(links@.subrange(links@.len() as int, links@.len() as int) =~= Seq::<(usize, usize)>::empty());
        }
    }
    proof {
        assert(queue@.subrange(0, head as int) =~= queue@);
        assert forall|w: usize| w < n && !queue@.contains(w) implies exists|k: int|
            0 <= k < links@.len() && links@[k].1 == w && !queue@.contains(links@[k].0) by {
            lemma_pending_positive(links@, done@, w);
        }
    }
    queue
}

} // verus!

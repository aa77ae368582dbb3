//! The orders that Heap's algorithm visits among the nine lanes, described by maps of
//! places: `arrange(a, p)` puts at place `j` what `a` holds at place `p[j]`.

use vstd::prelude::*;

verus! {

/// Every place kept.
pub open spec fn identity_places() -> Seq<int> {
    Seq::new(9, |j: int| j)
}

/// `a` rearranged by the place map `p`.
pub open spec fn arrange(a: Seq<usize>, p: Seq<int>) -> Seq<usize> {
    Seq::new(p.len(), |j: int| a[p[j]])
}

/// First `s`, then `h`: place `j` takes what `s` puts at place `h[j]`.
pub open spec fn compose(s: Seq<int>, h: Seq<int>) -> Seq<int> {
    Seq::new(h.len(), |j: int| s[h[j]])
}

/// `s` with places `x` and `y` exchanged.
pub open spec fn swap_places(s: Seq<int>, x: int, y: int) -> Seq<int> {
    s.update(x, s[y]).update(y, s[x])
}

/// A rearrangement of the first `k` of the nine places that keeps the others.
pub open spec fn moves_first(p: Seq<int>, k: int) -> bool {
    &&& p.len() == 9
    &&& p.no_duplicates()
    &&& forall|j: int| 0 <= j < k ==> 0 <= #[trigger] p[j] < k
    &&& forall|j: int| k <= j < 9 ==> #[trigger] p[j] == j
}

/// Whether place `v` is taken from some place by `p`.
pub open spec fn reaches(p: Seq<int>, v: int) -> bool {
    exists|m: int| 0 <= m < 9 && #[trigger] p[m] == v
}

/// Every one of the nine places is taken from some place.
pub open spec fn onto_places(p: Seq<int>) -> bool {
    forall|v: int| 0 <= v < 9 ==> #[trigger] reaches(p, v)
}

/// The place that Heap's algorithm exchanges with the last of the first `k` places in
/// its round `i`.
pub open spec fn heap_swap_place(k: int, i: int) -> int {
    if k % 2 == 0 {
        i
    } else {
        0
    }
}

/// Where round `i` of Heap's algorithm on the first `k` places starts, when one pass
/// on the first `k - 1` places moves them by `h`.
pub open spec fn heap_round_start(k: int, i: nat, h: Seq<int>) -> Seq<int>
    decreases i,
{
    if i == 0 {
        identity_places()
    } else {
        swap_places(
            compose(heap_round_start(k, (i - 1) as nat, h), h),
            heap_swap_place(k, i - 1),
            k - 1,
        )
    }
}

/// How one pass of Heap's algorithm on the first `k` places moves them.
pub open spec fn heap_pass(k: nat) -> Seq<int>
    decreases k,
{
    if k <= 1 {
        identity_places()
    } else {
        let h = heap_pass((k - 1) as nat);
        compose(heap_round_start(k as int, (k - 1) as nat, h), h)
    }
}

/// Arranging by `s`, then by `h`, is arranging by their composition.
pub proof fn lemma_arrange_compose(a: Seq<usize>, s: Seq<int>, h: Seq<int>)
    requires
        s.len() == 9,
        forall|j: int| 0 <= j < h.len() ==> 0 <= #[trigger] h[j] < 9,
    ensures
        arrange(arrange(a, s), h) == arrange(a, compose(s, h)),
{
    assert(arrange(arrange(a, s), h) =~= arrange(a, compose(s, h)));
}

/// Exchanging two places of the map exchanges the two places of the arrangement.
pub proof fn lemma_arrange_swap(a: Seq<usize>, s: Seq<int>, x: int, y: int)
    requires
        s.len() == 9,
        0 <= x < 9,
        0 <= y < 9,
    ensures
        arrange(a, swap_places(s, x, y)) == arrange(a, s).update(x, arrange(a, s)[y]).update(
            y,
            arrange(a, s)[x],
        ),
{
    assert(arrange(a, swap_places(s, x, y)) =~= arrange(a, s).update(x, arrange(a, s)[y]).update(
        y,
        arrange(a, s)[x],
    ));
}

/// Arranging by the identity keeps a list of nine.
pub proof fn lemma_arrange_identity(a: Seq<usize>)
    requires
        a.len() == 9,
    ensures
        arrange(a, identity_places()) == a,
        compose(identity_places(), identity_places()) == identity_places(),
{
    assert(arrange(a, identity_places()) =~= a);
    assert(compose(identity_places(), identity_places()) =~= identity_places());
}

/// Composing the identity with a map of the nine places gives the map.
pub proof fn lemma_compose_identity(h: Seq<int>)
    requires
        forall|j: int| 0 <= j < h.len() ==> 0 <= #[trigger] h[j] < 9,
    ensures
        compose(identity_places(), h) == h,
{
    assert(compose(identity_places(), h) =~= h);
}

/// A rearrangement `p` of the first `k` places that brings to the last of them what
/// `s` brings there is `s` followed by a rearrangement of the first `k - 1` places.
pub proof fn lemma_split_last(s: Seq<int>, p: Seq<int>, k: int) -> (p2: Seq<int>)
    requires
        2 <= k <= 9,
        moves_first(s, k),
        onto_places(s),
        moves_first(p, k),
        s[k - 1] == p[k - 1],
    ensures
        moves_first(p2, k - 1),
        compose(s, p2) == p,
{
    let p2 = Seq::new(9, |j: int| choose|m: int| 0 <= m < 9 && s[m] == p[j]);
    assert forall|j: int| 0 <= j < 9 implies 0 <= #[trigger] p2[j] < 9 && s[p2[j]] == p[j] by {
        if j >= k {
            assert(p[j] == j);
        }
        assert(reaches(s, p[j]));
    }
    assert forall|a: int, b: int| 0 <= a < p2.len() && 0 <= b < p2.len() && a != b implies p2[a]
        != p2[b] by {
        assert(p[a] != p[b]);
        assert(s[p2[a]] == p[a] && s[p2[b]] == p[b]);
    }
    assert forall|j: int| 0 <= j < k - 1 implies 0 <= #[trigger] p2[j] < k - 1 by {
        let m = p2[j];
        assert(s[m] == p[j]);
        assert(p[j] < k);
        if m >= k {
            assert(s[m] == m);
        }
        if m == k - 1 {
            assert(p[j] == p[k - 1]);
        }
    }
    assert forall|j: int| k - 1 <= j < 9 implies #[trigger] p2[j] == j by {
        let m = p2[j];
        assert(s[m] == p[j]);
        if j == k - 1 {
            assert(s[m] == s[k - 1]);
        } else {
            assert(p[j] == j);
            assert(s[j] == j);
        }
    }
    assert(compose(s, p2) =~= p);
    p2
}

proof fn lemma_identity_moves(k: int)
    requires
        0 <= k <= 9,
    ensures
        moves_first(identity_places(), k),
        onto_places(identity_places()),
{
    let id = identity_places();
    assert forall|v: int| 0 <= v < 9 implies reaches(id, v) by {
        assert(id[v] == v);
    }
}

proof fn lemma_compose_moves(s: Seq<int>, h: Seq<int>, k: int)
    requires
        0 <= k <= 9,
        moves_first(s, k),
        moves_first(h, k),
        onto_places(s),
        onto_places(h),
    ensures
        moves_first(compose(s, h), k),
        onto_places(compose(s, h)),
{
    let c = compose(s, h);
    assert forall|j: int| 0 <= j < 9 implies 0 <= #[trigger] h[j] < 9 by {
        if j >= k {
            assert(h[j] == j);
        }
    }
    assert forall|a: int, b: int| 0 <= a < c.len() && 0 <= b < c.len() && a != b implies c[a]
        != c[b] by {
        assert(0 <= h[a] < 9 && 0 <= h[b] < 9);
        assert(h[a] != h[b]);
    }
    assert forall|j: int| 0 <= j < k implies 0 <= #[trigger] c[j] < k by {
        assert(0 <= h[j] < k);
    }
    assert forall|j: int| k <= j < 9 implies #[trigger] c[j] == j by {
        assert(h[j] == j);
    }
    assert forall|v: int| 0 <= v < 9 implies reaches(c, v) by {
        assert(reaches(s, v));
        let m1 = choose|m: int| 0 <= m < 9 && s[m] == v;
        assert(reaches(h, m1));
        let m2 = choose|m: int| 0 <= m < 9 && h[m] == m1;
        assert(c[m2] == v);
    }
}

proof fn lemma_swap_moves(s: Seq<int>, x: int, y: int, k: int)
    requires
        0 <= k <= 9,
        0 <= x < k,
        0 <= y < k,
        moves_first(s, k),
        onto_places(s),
    ensures
        moves_first(swap_places(s, x, y), k),
        onto_places(swap_places(s, x, y)),
{
    let t = swap_places(s, x, y);
    let f = |j: int| if j == y { x } else if j == x { y } else { j };
    assert forall|j: int| 0 <= j < 9 implies #[trigger] t[j] == s[f(j)] by {}
    assert forall|a: int, b: int| 0 <= a < t.len() && 0 <= b < t.len() && a != b implies t[a]
        != t[b] by {
        assert(t[a] == s[f(a)] && t[b] == s[f(b)]);
    }
    assert forall|j: int| 0 <= j < k implies 0 <= #[trigger] t[j] < k by {
        assert(t[j] == s[f(j)]);
    }
    assert forall|j: int| k <= j < 9 implies #[trigger] t[j] == j by {
        assert(t[j] == s[j]);
    }
    assert forall|v: int| 0 <= v < 9 implies reaches(t, v) by {
        assert(reaches(s, v));
        let m = choose|m: int| 0 <= m < 9 && s[m] == v;
        assert(t[f(m)] == v);
    }
}

proof fn lemma_round_moves(k: int, i: nat, h: Seq<int>)
    requires
        2 <= k <= 9,
        i < k,
        moves_first(h, k),
        onto_places(h),
    ensures
        moves_first(heap_round_start(k, i, h), k),
        onto_places(heap_round_start(k, i, h)),
    decreases i,
{
    if i == 0 {
        lemma_identity_moves(k);
    } else {
        lemma_round_moves(k, (i - 1) as nat, h);
        lemma_compose_moves(heap_round_start(k, (i - 1) as nat, h), h, k);
        lemma_swap_moves(
            compose(heap_round_start(k, (i - 1) as nat, h), h),
            heap_swap_place(k, i - 1),
            k - 1,
            k,
        );
    }
}

/// One pass of Heap's algorithm on the first `k` places rearranges them and keeps the
/// others, and so do the starts of its rounds.
pub proof fn lemma_heap_moves(k: nat)
    requires
        1 <= k <= 9,
    ensures
        moves_first(heap_pass(k), k as int),
        onto_places(heap_pass(k)),
        k >= 2 ==> forall|i: nat|
            i < k ==> moves_first(#[trigger] heap_round_start(k as int, i, heap_pass((k - 1) as nat)), k as int)
                && onto_places(heap_round_start(k as int, i, heap_pass((k - 1) as nat))),
    decreases k,
{
    if k == 1 {
        lemma_identity_moves(1);
    } else {
        let h = heap_pass((k - 1) as nat);
        lemma_heap_moves((k - 1) as nat);
        assert(moves_first(h, k as int)) by {
            assert forall|j: int| 0 <= j < k implies 0 <= #[trigger] h[j] < k by {
                if j == k - 1 {
                    assert(h[j] == j);
                }
            }
        }
        assert forall|i: nat| i < k implies moves_first(
            #[trigger] heap_round_start(k as int, i, h),
            k as int,
        ) && onto_places(heap_round_start(k as int, i, h)) by {
            lemma_round_moves(k as int, i, h);
        }
        lemma_compose_moves(heap_round_start(k as int, (k - 1) as nat, h), h, k as int);
    }
}

/// In its rounds, Heap's algorithm brings every one of the first `k` places to the
/// last of them once: for each place `q` there is a round that starts with `q` last.
pub proof fn lemma_heap_covers(k: int, q: int)
    requires
        2 <= k <= 9,
        0 <= q < k,
    ensures
        exists|i: nat| i < k && #[trigger] heap_round_start(k, i, heap_pass((k - 1) as nat))[k - 1] == q,
{
    // the starts of the rounds and the passes, computed one step after the other
    assert(heap_pass(1) == identity_places());
    assert(heap_round_start(2, 0, heap_pass(1)) == identity_places());
    assert(heap_round_start(2, 1, heap_pass(1)) =~= seq![1int, 0, 2, 3, 4, 5, 6, 7, 8]);
    assert(heap_pass(2) =~= seq![1int, 0, 2, 3, 4, 5, 6, 7, 8]);
    assert(heap_round_start(3, 0, heap_pass(2)) == identity_places());
    assert(heap_round_start(3, 1, heap_pass(2)) =~= seq![2int, 0, 1, 3, 4, 5, 6, 7, 8]);
    assert(heap_round_start(3, 2, heap_pass(2)) =~= seq![1int, 2, 0, 3, 4, 5, 6, 7, 8]);
    assert(heap_pass(3) =~= seq![2int, 1, 0, 3, 4, 5, 6, 7, 8]);
    assert(heap_round_start(4, 0, heap_pass(3)) == identity_places());
    assert(heap_round_start(4, 1, heap_pass(3)) =~= seq![3int, 1, 0, 2, 4, 5, 6, 7, 8]);
    assert(heap_round_start(4, 2, heap_pass(3)) =~= seq![0int, 2, 3, 1, 4, 5, 6, 7, 8]);
    assert(heap_round_start(4, 3, heap_pass(3)) =~= seq![3int, 2, 1, 0, 4, 5, 6, 7, 8]);
    assert(heap_pass(4) =~= seq![1int, 2, 3, 0, 4, 5, 6, 7, 8]);
    assert(heap_round_start(5, 0, heap_pass(4)) == identity_places());
    assert(heap_round_start(5, 1, heap_pass(4)) =~= seq![4int, 2, 3, 0, 1, 5, 6, 7, 8]);
    assert(heap_round_start(5, 2, heap_pass(4)) =~= seq![1int, 3, 0, 4, 2, 5, 6, 7, 8]);
    assert(heap_round_start(5, 3, heap_pass(4)) =~= seq![2int, 0, 4, 1, 3, 5, 6, 7, 8]);
    assert(heap_round_start(5, 4, heap_pass(4)) =~= seq![3int, 4, 1, 2, 0, 5, 6, 7, 8]);
    assert(heap_pass(5) =~= seq![4int, 1, 2, 3, 0, 5, 6, 7, 8]);
    assert(heap_round_start(6, 0, heap_pass(5)) == identity_places());
    assert(heap_round_start(6, 1, heap_pass(5)) =~= seq![5int, 1, 2, 3, 0, 4, 6, 7, 8]);
    assert(heap_round_start(6, 2, heap_pass(5)) =~= seq![0int, 4, 2, 3, 5, 1, 6, 7, 8]);
    assert(heap_round_start(6, 3, heap_pass(5)) =~= seq![5int, 4, 1, 3, 0, 2, 6, 7, 8]);
    assert(heap_round_start(6, 4, heap_pass(5)) =~= seq![0int, 4, 1, 2, 5, 3, 6, 7, 8]);
    assert(heap_round_start(6, 5, heap_pass(5)) =~= seq![5int, 4, 1, 2, 3, 0, 6, 7, 8]);
    assert(heap_pass(6) =~= seq![3int, 4, 1, 2, 5, 0, 6, 7, 8]);
    assert(heap_round_start(7, 0, heap_pass(6)) == identity_places());
    assert(heap_round_start(7, 1, heap_pass(6)) =~= seq![6int, 4, 1, 2, 5, 0, 3, 7, 8]);
    assert(heap_round_start(7, 2, heap_pass(6)) =~= seq![3int, 5, 4, 1, 0, 6, 2, 7, 8]);
    assert(heap_round_start(7, 3, heap_pass(6)) =~= seq![2int, 0, 5, 4, 6, 3, 1, 7, 8]);
    assert(heap_round_start(7, 4, heap_pass(6)) =~= seq![1int, 6, 0, 5, 3, 2, 4, 7, 8]);
    assert(heap_round_start(7, 5, heap_pass(6)) =~= seq![4int, 3, 6, 0, 2, 1, 5, 7, 8]);
    assert(heap_round_start(7, 6, heap_pass(6)) =~= seq![5int, 2, 3, 6, 1, 4, 0, 7, 8]);
    assert(heap_pass(7) =~= seq![6int, 1, 2, 3, 4, 5, 0, 7, 8]);
    assert(heap_round_start(8, 0, heap_pass(7)) == identity_places());
    assert(heap_round_start(8, 1, heap_pass(7)) =~= seq![7int, 1, 2, 3, 4, 5, 0, 6, 8]);
    assert(heap_round_start(8, 2, heap_pass(7)) =~= seq![0int, 6, 2, 3, 4, 5, 7, 1, 8]);
    assert(heap_round_start(8, 3, heap_pass(7)) =~= seq![7int, 6, 1, 3, 4, 5, 0, 2, 8]);
    assert(heap_round_start(8, 4, heap_pass(7)) =~= seq![0int, 6, 1, 2, 4, 5, 7, 3, 8]);
    assert(heap_round_start(8, 5, heap_pass(7)) =~= seq![7int, 6, 1, 2, 3, 5, 0, 4, 8]);
    assert(heap_round_start(8, 6, heap_pass(7)) =~= seq![0int, 6, 1, 2, 3, 4, 7, 5, 8]);
    assert(heap_round_start(8, 7, heap_pass(7)) =~= seq![7int, 6, 1, 2, 3, 4, 5, 0, 8]);
    assert(heap_pass(8) =~= seq![5int, 6, 1, 2, 3, 4, 7, 0, 8]);
    assert(heap_round_start(9, 0, heap_pass(8)) == identity_places());
    assert(heap_round_start(9, 1, heap_pass(8)) =~= seq![8int, 6, 1, 2, 3, 4, 7, 0, 5]);
    assert(heap_round_start(9, 2, heap_pass(8)) =~= seq![5int, 7, 6, 1, 2, 3, 0, 8, 4]);
    assert(heap_round_start(9, 3, heap_pass(8)) =~= seq![4int, 0, 7, 6, 1, 2, 8, 5, 3]);
    assert(heap_round_start(9, 4, heap_pass(8)) =~= seq![3int, 8, 0, 7, 6, 1, 5, 4, 2]);
    assert(heap_round_start(9, 5, heap_pass(8)) =~= seq![2int, 5, 8, 0, 7, 6, 4, 3, 1]);
    assert(heap_round_start(9, 6, heap_pass(8)) =~= seq![1int, 4, 5, 8, 0, 7, 3, 2, 6]);
    assert(heap_round_start(9, 7, heap_pass(8)) =~= seq![6int, 3, 4, 5, 8, 0, 2, 1, 7]);
    assert(heap_round_start(9, 8, heap_pass(8)) =~= seq![7int, 2, 3, 4, 5, 8, 1, 6, 0]);
    assert(heap_pass(9) =~= seq![8int, 1, 2, 3, 4, 5, 6, 7, 0]);
    // for each place, a round that starts with it last
    if k == 2 {
        if q == 0 {
            assert(heap_round_start(2, 1, heap_pass(1))[1] == 0);
        } else {
            assert(heap_round_start(2, 0, heap_pass(1))[1] == 1);
        }
    } else if k == 3 {
        if q == 0 {
            assert(heap_round_start(3, 2, heap_pass(2))[2] == 0);
        } else if q == 1 {
            assert(heap_round_start(3, 1, heap_pass(2))[2] == 1);
        } else {
            assert(heap_round_start(3, 0, heap_pass(2))[2] == 2);
        }
    } else if k == 4 {
        if q == 0 {
            assert(heap_round_start(4, 3, heap_pass(3))[3] == 0);
        } else if q == 1 {
            assert(heap_round_start(4, 2, heap_pass(3))[3] == 1);
        } else if q == 2 {
            assert(heap_round_start(4, 1, heap_pass(3))[3] == 2);
        } else {
            assert(heap_round_start(4, 0, heap_pass(3))[3] == 3);
        }
    } else if k == 5 {
        if q == 0 {
            assert(heap_round_start(5, 4, heap_pass(4))[4] == 0);
        } else if q == 1 {
            assert(heap_round_start(5, 1, heap_pass(4))[4] == 1);
        } else if q == 2 {
            assert(heap_round_start(5, 2, heap_pass(4))[4] == 2);
        } else if q == 3 {
            assert(heap_round_start(5, 3, heap_pass(4))[4] == 3);
        } else {
            assert(heap_round_start(5, 0, heap_pass(4))[4] == 4);
        }
    } else if k == 6 {
        if q == 0 {
            assert(heap_round_start(6, 5, heap_pass(5))[5] == 0);
        } else if q == 1 {
            assert(heap_round_start(6, 2, heap_pass(5))[5] == 1);
        } else if q == 2 {
            assert(heap_round_start(6, 3, heap_pass(5))[5] == 2);
        } else if q == 3 {
            assert(heap_round_start(6, 4, heap_pass(5))[5] == 3);
        } else if q == 4 {
            assert(heap_round_start(6, 1, heap_pass(5))[5] == 4);
        } else {
            assert(heap_round_start(6, 0, heap_pass(5))[5] == 5);
        }
    } else if k == 7 {
        if q == 0 {
            assert(heap_round_start(7, 6, heap_pass(6))[6] == 0);
        } else if q == 1 {
            assert(heap_round_start(7, 3, heap_pass(6))[6] == 1);
        } else if q == 2 {
            assert(heap_round_start(7, 2, heap_pass(6))[6] == 2);
        } else if q == 3 {
            assert(heap_round_start(7, 1, heap_pass(6))[6] == 3);
        } else if q == 4 {
            assert(heap_round_start(7, 4, heap_pass(6))[6] == 4);
        } else if q == 5 {
            assert(heap_round_start(7, 5, heap_pass(6))[6] == 5);
        } else {
            assert(heap_round_start(7, 0, heap_pass(6))[6] == 6);
        }
    } else if k == 8 {
        if q == 0 {
            assert(heap_round_start(8, 7, heap_pass(7))[7] == 0);
        } else if q == 1 {
            assert(heap_round_start(8, 2, heap_pass(7))[7] == 1);
        } else if q == 2 {
            assert(heap_round_start(8, 3, heap_pass(7))[7] == 2);
        } else if q == 3 {
            assert(heap_round_start(8, 4, heap_pass(7))[7] == 3);
        } else if q == 4 {
            assert(heap_round_start(8, 5, heap_pass(7))[7] == 4);
        } else if q == 5 {
            assert(heap_round_start(8, 6, heap_pass(7))[7] == 5);
        } else if q == 6 {
            assert(heap_round_start(8, 1, heap_pass(7))[7] == 6);
        } else {
            assert(heap_round_start(8, 0, heap_pass(7))[7] == 7);
        }
    } else {
        if q == 0 {
            assert(heap_round_start(9, 8, heap_pass(8))[8] == 0);
        } else if q == 1 {
            assert(heap_round_start(9, 5, heap_pass(8))[8] == 1);
        } else if q == 2 {
            assert(heap_round_start(9, 4, heap_pass(8))[8] == 2);
        } else if q == 3 {
            assert(heap_round_start(9, 3, heap_pass(8))[8] == 3);
        } else if q == 4 {
            assert(heap_round_start(9, 2, heap_pass(8))[8] == 4);
        } else if q == 5 {
            assert(heap_round_start(9, 1, heap_pass(8))[8] == 5);
        } else if q == 6 {
            assert(heap_round_start(9, 6, heap_pass(8))[8] == 6);
        } else if q == 7 {
            assert(heap_round_start(9, 7, heap_pass(8))[8] == 7);
        } else {
            assert(heap_round_start(9, 0, heap_pass(8))[8] == 8);
        }
    }
}

} // verus!

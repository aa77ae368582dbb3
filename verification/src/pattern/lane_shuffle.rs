//! Lane-level shuffles: each computes one lane permutation and applies it to every
//! note of the chart, so that every note on lane X moves to lane Y whatever its time.

use vstd::prelude::*;

use rand::rngs::SmallRng;

use crate::model::note::{Note, PlayMode};
use crate::pattern::heap_order::{
    arrange, compose, heap_pass, heap_round_start, identity_places, lemma_arrange_compose,
    lemma_arrange_identity, lemma_arrange_swap, lemma_compose_identity, lemma_heap_covers,
    lemma_heap_moves, lemma_split_last, moves_first, onto_places, swap_places,
};
use crate::pattern::rng::random_range;
use crate::pattern::{get_keys, increasing, keys_of, lanes_from, lemma_keys_of};

verus! {

/// The note with another lane and everything else kept.
pub open spec fn with_lane(n: Note, lane: usize) -> Note {
    Note { lane: lane, ..n }
}

/// Where a lane goes when the key lane `keys[i]` goes to `targets[i]` for each `i`;
/// a lane that is no key stays.
pub open spec fn shuffled_lane(keys: Seq<usize>, targets: Seq<usize>, lane: usize) -> usize {
    if keys.contains(lane) {
        targets[keys.index_of(lane)]
    } else {
        lane
    }
}

/// The notes with every lane moved as `shuffled_lane` says.
pub open spec fn shuffled(notes: Seq<Note>, keys: Seq<usize>, targets: Seq<usize>) -> Seq<Note> {
    notes.map_values(|n: Note| with_lane(n, shuffled_lane(keys, targets, n.lane)))
}

/// `targets` puts each key lane on a key lane, no two on the same one.
pub open spec fn permutes(targets: Seq<usize>, keys: Seq<usize>) -> bool {
    &&& targets.len() == keys.len()
    &&& targets.no_duplicates()
    &&& forall|j: int| 0 <= j < targets.len() ==> keys.contains(#[trigger] targets[j])
}

/// All lanes of a mode, in order.
pub open spec fn all_lanes(total: nat) -> Seq<usize> {
    Seq::new(total, |i: int| i as usize)
}

proof fn lemma_index_of(keys: Seq<usize>, i: int)
    requires
        increasing(keys),
        0 <= i < keys.len(),
    ensures
        keys.contains(keys[i]),
        keys.index_of(keys[i]) == i,
{
    assert(keys[i] == keys[i]);
    let j = keys.index_of(keys[i]);
    if j != i {
        assert(keys[j] == keys[i]);
    }
}

/// A lane shuffle whose targets permute the keys moves no two lanes onto one lane,
/// takes key lanes to key lanes and leaves the other lanes where they are.
pub proof fn lemma_shuffle_bijective(keys: Seq<usize>, targets: Seq<usize>)
    requires
        increasing(keys),
        permutes(targets, keys),
    ensures
        forall|a: usize, b: usize|
            a != b ==> #[trigger] shuffled_lane(keys, targets, a) != #[trigger] shuffled_lane(
                keys,
                targets,
                b,
            ),
        forall|a: usize| keys.contains(a) ==> keys.contains(#[trigger] shuffled_lane(keys, targets, a)),
        forall|a: usize| !keys.contains(a) ==> #[trigger] shuffled_lane(keys, targets, a) == a,
{
    assert forall|a: usize, b: usize|
        a != b implies #[trigger] shuffled_lane(keys, targets, a) != #[trigger] shuffled_lane(
            keys,
            targets,
            b,
        ) by {
        if keys.contains(a) {
            let ia = keys.index_of(a);
            assert(keys.contains(targets[ia]));
            if keys.contains(b) {
                let ib = keys.index_of(b);
                assert(ia != ib);
            }
        } else if keys.contains(b) {
            let ib = keys.index_of(b);
            assert(keys.contains(targets[ib]));
        }
    }
    assert forall|a: usize| keys.contains(a) implies keys.contains(
        #[trigger] shuffled_lane(keys, targets, a),
    ) by {
        let ia = keys.index_of(a);
        assert(keys.contains(targets[ia]));
    }
}

/// Applies one lane permutation to every note: the key lane `keys[i]` goes to
/// `targets[i]`, other lanes stay.
fn apply_key_targets(notes: &mut Vec<Note>, total: usize, keys: &Vec<usize>, targets: &Vec<usize>)
    requires
        increasing(keys@),
        forall|i: int| 0 <= i < keys@.len() ==> keys@[i] < total,
        targets@.len() == keys@.len(),
    ensures
        final(notes)@ == shuffled(old(notes)@, keys@, targets@),
{
    let mut mapping: Vec<usize> = Vec::new();
    let mut l: usize = 0;
    while l < total
        invariant
            l <= total,
            mapping@.len() == l,
            forall|k: int| 0 <= k < l ==> mapping@[k] == k,
        decreases total - l,
    {
        mapping.push(l);
        l = l + 1;
    }
    let mut i: usize = 0;
    while i < keys.len()
        invariant
            increasing(keys@),
            forall|j: int| 0 <= j < keys@.len() ==> keys@[j] < total,
            targets@.len() == keys@.len(),
            mapping@.len() == total,
            i <= keys@.len(),
            forall|j: int| 0 <= j < i ==> mapping@[keys@[j] as int] == targets@[j],
            forall|x: int|
                0 <= x < total && (forall|j: int| 0 <= j < i ==> keys@[j] != x) ==> mapping@[x] == x,
        decreases keys@.len() - i,
    {
        let key = keys[i];
        mapping.set(key, targets[i]);
        i = i + 1;
    }
    assert forall|x: int| 0 <= x < total implies mapping@[x] == shuffled_lane(
        keys@,
        targets@,
        x as usize,
    ) by {
        if keys@.contains(x as usize) {
            let j = keys@.index_of(x as usize);
            lemma_index_of(keys@, j);
        }
    }
    let ghost orig = notes@;
    let mut k: usize = 0;
    while k < notes.len()
        invariant
            notes@.len() == orig.len(),
            k <= notes@.len(),
            mapping@.len() == total,
            forall|x: int|
                0 <= x < total ==> mapping@[x] == shuffled_lane(keys@, targets@, x as usize),
            forall|j: int| 0 <= j < keys@.len() ==> keys@[j] < total,
            forall|j: int|
                0 <= j < k ==> notes@[j] == with_lane(
                    orig[j],
                    shuffled_lane(keys@, targets@, orig[j].lane),
                ),
            forall|j: int| k <= j < notes@.len() ==> notes@[j] == orig[j],
        decreases notes@.len() - k,
    {
        let mut n = notes[k];
        if n.lane < mapping.len() {
            n.lane = mapping[n.lane];
        } else {
            assert(!keys@.contains(n.lane));
        }
        notes.set(k, n);
        k = k + 1;
    }
    assert(notes@ =~= shuffled(orig, keys@, targets@));
}

/// Mirror: reverses the order of the key lanes of a player side (scratch lanes only
/// when `include_scratch` holds).
pub fn mirror(notes: &mut Vec<Note>, mode: PlayMode, player: usize, include_scratch: bool)
    ensures
        final(notes)@ == shuffled(
            old(notes)@,
            keys_of(mode, player as int, include_scratch),
            keys_of(mode, player as int, include_scratch).reverse(),
        ),
{
    let keys = get_keys(mode, player, include_scratch);
    proof {
        lemma_keys_of(mode, player as int, include_scratch);
    }
    let total = mode.lane_count();
    let n = keys.len();
    let mut targets: Vec<usize> = Vec::new();
    let mut i: usize = 0;
    while i < n
        invariant
            n == keys@.len(),
            i <= n,
            targets@.len() == i,
            forall|j: int| 0 <= j < i ==> targets@[j] == keys@[n - 1 - j],
        decreases n - i,
    {
        targets.push(keys[n - 1 - i]);
        i = i + 1;
    }
    assert(targets@ =~= keys@.reverse());
    apply_key_targets(notes, total, &keys, &targets);
}

/// The reversed keys permute the keys.
pub proof fn lemma_reverse_permutes(keys: Seq<usize>)
    requires
        increasing(keys),
    ensures
        permutes(keys.reverse(), keys),
{
    let r = keys.reverse();
    let n = keys.len();
    assert forall|i: int, j: int| 0 <= i < r.len() && 0 <= j < r.len() && i != j implies r[i]
        != r[j] by {
        assert(r[i] == keys[n - 1 - i] && r[j] == keys[n - 1 - j]);
    }
    assert forall|j: int| 0 <= j < r.len() implies keys.contains(#[trigger] r[j]) by {
        assert(r[j] == keys[n - 1 - j]);
    }
}

/// Mirroring twice gives the chart back.
pub proof fn lemma_mirror_twice(notes: Seq<Note>, mode: PlayMode, player: int, include_scratch: bool)
    ensures
        ({
            let keys = keys_of(mode, player, include_scratch);
            shuffled(shuffled(notes, keys, keys.reverse()), keys, keys.reverse()) == notes
        }),
{
    let keys = keys_of(mode, player, include_scratch);
    lemma_keys_of(mode, player, include_scratch);
    let r = keys.reverse();
    let n = keys.len();
    assert forall|l: usize| #[trigger] shuffled_lane(keys, r, shuffled_lane(keys, r, l)) == l by {
        if keys.contains(l) {
            let i = keys.index_of(l);
            lemma_index_of(keys, i);
            assert(shuffled_lane(keys, r, l) == keys[n - 1 - i]);
            lemma_index_of(keys, n - 1 - i);
        }
    }
    assert(shuffled(shuffled(notes, keys, r), keys, r) =~= notes);
}

/// Whether `draws` are draws for picking `n` lanes one by one from a shrinking pool:
/// the `i`-th lies below `n - i`.
pub open spec fn valid_draws(draws: Seq<usize>, n: nat) -> bool {
    draws.len() == n && forall|i: int| 0 <= i < n ==> #[trigger] draws[i] < n - i
}

/// The pool of lanes left after the draws: each draw takes the lane at its index and
/// moves the last lane of the pool into that place.
pub open spec fn pool_after(keys: Seq<usize>, draws: Seq<usize>) -> Seq<usize>
    decreases draws.len(),
{
    if draws.len() == 0 {
        keys
    } else {
        let pool = pool_after(keys, draws.drop_last());
        pool.update(draws.last() as int, pool.last()).drop_last()
    }
}

/// The lanes taken by the draws, in the order in which they were taken.
pub open spec fn drawn_targets(keys: Seq<usize>, draws: Seq<usize>) -> Seq<usize>
    decreases draws.len(),
{
    if draws.len() == 0 {
        Seq::empty()
    } else {
        let pool = pool_after(keys, draws.drop_last());
        drawn_targets(keys, draws.drop_last()).push(pool[draws.last() as int])
    }
}

/// Random with given draws: key lane `keys[i]` goes to the lane that the `i`-th draw
/// takes from the pool of key lanes not taken yet.
pub fn lane_random_by(
    notes: &mut Vec<Note>,
    mode: PlayMode,
    player: usize,
    include_scratch: bool,
    draws: &Vec<usize>,
)
    requires
        valid_draws(draws@, keys_of(mode, player as int, include_scratch).len()),
    ensures
        ({
            let keys = keys_of(mode, player as int, include_scratch);
            &&& final(notes)@ == shuffled(old(notes)@, keys, drawn_targets(keys, draws@))
            &&& permutes(drawn_targets(keys, draws@), keys)
        }),
{
    let keys = get_keys(mode, player, include_scratch);
    proof {
        lemma_keys_of(mode, player as int, include_scratch);
    }
    let total = mode.lane_count();
    let n = keys.len();
    let mut pool = keys.clone();
    let mut targets: Vec<usize> = Vec::new();
    let mut i: usize = 0;
    assert(draws@.take(0) =~= Seq::<usize>::empty());
    while i < n
        invariant
            n == keys@.len(),
            valid_draws(draws@, n as nat),
            increasing(keys@),
            i <= n,
            pool@ == pool_after(keys@, draws@.take(i as int)),
            targets@ == drawn_targets(keys@, draws@.take(i as int)),
            pool@.len() + targets@.len() == n,
            targets@.len() == i,
            pool@.no_duplicates(),
            targets@.no_duplicates(),
            forall|a: int, b: int|
                0 <= a < pool@.len() && 0 <= b < targets@.len() ==> pool@[a] != targets@[b],
            forall|a: int| 0 <= a < pool@.len() ==> keys@.contains(#[trigger] pool@[a]),
            forall|b: int| 0 <= b < targets@.len() ==> keys@.contains(#[trigger] targets@[b]),
        decreases n - i,
    {
        let r = draws[i];
        assert(draws@.take(i + 1).drop_last() =~= draws@.take(i as int));
        let ghost old_pool = pool@;
        let ghost old_targets = targets@;
        let x = pool[r];
        targets.push(x);
        pool.swap_remove(r);
        proof {
            let last = old_pool.len() - 1;
            assert forall|a: int| 0 <= a < pool@.len() implies #[trigger] pool@[a] == old_pool[if a
                == r {
                last
            } else {
                a
            }] by {}
            assert forall|a: int, b: int|
                0 <= a < pool@.len() && 0 <= b < pool@.len() && a != b implies pool@[a]
                != pool@[b] by {
                let ia = if a == r { last } else { a };
                let ib = if b == r { last } else { b };
                assert(pool@[a] == old_pool[ia] && pool@[b] == old_pool[ib]);
            }
            assert forall|a: int, b: int|
                0 <= a < pool@.len() && 0 <= b < targets@.len() implies pool@[a]
                != targets@[b] by {
                let ia = if a == r { last } else { a };
                assert(pool@[a] == old_pool[ia]);
                if b < old_targets.len() {
                    assert(targets@[b] == old_targets[b]);
                }
            }
            assert forall|a: int, b: int|
                0 <= a < targets@.len() && 0 <= b < targets@.len() && a != b implies targets@[a]
                != targets@[b] by {
                if a < old_targets.len() && b < old_targets.len() {
                    assert(targets@[a] == old_targets[a] && targets@[b] == old_targets[b]);
                } else if a < old_targets.len() {
                    assert(targets@[a] == old_targets[a]);
                } else {
                    assert(targets@[b] == old_targets[b]);
                }
            }
            assert forall|a: int| 0 <= a < pool@.len() implies keys@.contains(#[trigger] pool@[a]) by {
                let ia = if a == r { last } else { a };
                assert(pool@[a] == old_pool[ia]);
            }
            assert forall|b: int| 0 <= b < targets@.len() implies keys@.contains(
                #[trigger] targets@[b],
            ) by {
                if b < old_targets.len() {
                    assert(targets@[b] == old_targets[b]);
                } else {
                    assert(targets@[b] == old_pool[r as int]);
                }
            }
        }
        i = i + 1;
    }
    assert(draws@.take(n as int) =~= draws@);
    apply_key_targets(notes, total, &keys, &targets);
}

/// Random: shuffles the key lanes of a player side, one permutation for the whole
/// chart; the lanes are drawn one by one from the pool of key lanes not taken yet.
pub fn lane_random(
    notes: &mut Vec<Note>,
    mode: PlayMode,
    player: usize,
    include_scratch: bool,
    rng: &mut SmallRng,
)
    ensures
        ({
            let keys = keys_of(mode, player as int, include_scratch);
            exists|draws: Seq<usize>|
                {
                    &&& valid_draws(draws, keys.len())
                    &&& #[trigger] shuffled(old(notes)@, keys, drawn_targets(keys, draws))
                        == final(notes)@
                    &&& permutes(drawn_targets(keys, draws), keys)
                }
        }),
{
    let keys = get_keys(mode, player, include_scratch);
    let n = keys.len();
    let mut draws: Vec<usize> = Vec::new();
    let mut i: usize = 0;
    while i < n
        invariant
            n == keys@.len(),
            i <= n,
            draws@.len() == i,
            forall|j: int| 0 <= j < i ==> #[trigger] draws@[j] < n - j,
        decreases n - i,
    {
        let r = random_range(rng, 0, n - i);
        draws.push(r);
        i = i + 1;
    }
    lane_random_by(notes, mode, player, include_scratch, &draws);
}

/// The key lanes rotated: the `j`-th key goes to the key `j` places after `start`
/// (before `start` when `inc` does not hold), wrapping around.
pub open spec fn rotated(keys: Seq<usize>, start: int, inc: bool) -> Seq<usize> {
    let n = keys.len() as int;
    Seq::new(
        keys.len(),
        |j: int|
            keys[if inc {
                if start + j < n {
                    start + j
                } else {
                    start + j - n
                }
            } else {
                if j <= start {
                    start - j
                } else {
                    start + n - j
                }
            }],
    )
}

/// Rotate with a given direction and start: key lane `keys[j]` goes to the key
/// `rotated` names.
pub fn rotate_by(
    notes: &mut Vec<Note>,
    mode: PlayMode,
    player: usize,
    include_scratch: bool,
    inc: bool,
    start: usize,
)
    requires
        start < keys_of(mode, player as int, include_scratch).len() || keys_of(
            mode,
            player as int,
            include_scratch,
        ).len() == 0,
    ensures
        ({
            let keys = keys_of(mode, player as int, include_scratch);
            &&& final(notes)@ == shuffled(old(notes)@, keys, rotated(keys, start as int, inc))
            &&& permutes(rotated(keys, start as int, inc), keys)
        }),
{
    let keys = get_keys(mode, player, include_scratch);
    proof {
        lemma_keys_of(mode, player as int, include_scratch);
    }
    let total = mode.lane_count();
    let len = keys.len();
    let mut targets: Vec<usize> = Vec::new();
    let mut rlane = start;
    let mut j: usize = 0;
    while j < len
        invariant
            len == keys@.len(),
            start < len || len == 0,
            j <= len,
            targets@.len() == j,
            j < len ==> rlane < len,
            j < len ==> rlane == (if inc {
                if start + j < len {
                    start + j
                } else {
                    start + j - len
                }
            } else {
                if j <= start {
                    start - j
                } else {
                    start + len - j
                }
            }),
            forall|k: int| 0 <= k < j ==> targets@[k] == rotated(keys@, start as int, inc)[k],
        decreases len - j,
    {
        targets.push(keys[rlane]);
        if inc {
            rlane = if rlane + 1 == len {
                0
            } else {
                rlane + 1
            };
        } else {
            rlane = if rlane == 0 {
                len - 1
            } else {
                rlane - 1
            };
        }
        j = j + 1;
    }
    assert(targets@ =~= rotated(keys@, start as int, inc));
    proof {
        lemma_rotated_permutes(keys@, start as int, inc);
    }
    apply_key_targets(notes, total, &keys, &targets);
}

proof fn lemma_rotated_permutes(keys: Seq<usize>, start: int, inc: bool)
    requires
        increasing(keys),
        0 <= start < keys.len() || keys.len() == 0,
    ensures
        permutes(rotated(keys, start, inc), keys),
{
    let r = rotated(keys, start, inc);
    let n = keys.len() as int;
    assert forall|a: int, b: int| 0 <= a < r.len() && 0 <= b < r.len() && a != b implies r[a]
        != r[b] by {
        let ia = if inc {
            if start + a < n {
                start + a
            } else {
                start + a - n
            }
        } else {
            if a <= start {
                start - a
            } else {
                start + n - a
            }
        };
        let ib = if inc {
            if start + b < n {
                start + b
            } else {
                start + b - n
            }
        } else {
            if b <= start {
                start - b
            } else {
                start + n - b
            }
        };
        assert(r[a] == keys[ia] && r[b] == keys[ib]);
        assert(ia != ib);
    }
    assert forall|j: int| 0 <= j < r.len() implies keys.contains(#[trigger] r[j]) by {
        let ij = if inc {
            if start + j < n {
                start + j
            } else {
                start + j - n
            }
        } else {
            if j <= start {
                start - j
            } else {
                start + n - j
            }
        };
        assert(r[j] == keys[ij]);
    }
}

/// Rotate: rotates the key lanes of a player side by a random offset in a random
/// direction; the start is drawn from `1..n` upward and from `0..n - 1` downward.
pub fn rotate(
    notes: &mut Vec<Note>,
    mode: PlayMode,
    player: usize,
    include_scratch: bool,
    rng: &mut SmallRng,
)
    ensures
        ({
            let keys = keys_of(mode, player as int, include_scratch);
            &&& keys.len() == 0 ==> final(notes)@ == old(notes)@
            &&& keys.len() > 0 ==> exists|inc: bool, start: int|
                {
                    &&& (if inc {
                        1 <= start < keys.len()
                    } else {
                        0 <= start < keys.len() - 1
                    })
                    &&& #[trigger] shuffled(old(notes)@, keys, rotated(keys, start, inc))
                        == final(notes)@
                    &&& permutes(rotated(keys, start, inc), keys)
                }
        }),
{
    let keys = get_keys(mode, player, include_scratch);
    proof {
        lemma_keys_of(mode, player as int, include_scratch);
    }
    if keys.len() == 0 {
        return;
    }
    let inc: bool = random_range(rng, 0, 2) == 1;
    let start = random_range(rng, 0, keys.len() - 1) + if inc {
        1
    } else {
        0
    };
    rotate_by(notes, mode, player, include_scratch, inc, start);
}

/// Index of the key that the `j`-th of `n` keys takes in a cross when the pairs that
/// start below `lim` are swapped: pairs `(0, 1), (2, 3), ...` from the front and
/// likewise from the back.
pub open spec fn cross_index_upto(n: int, lim: int, j: int) -> int {
    let back = n - 1 - j;
    if j - j % 2 < lim {
        if j % 2 == 0 {
            j + 1
        } else {
            j - 1
        }
    } else if back - back % 2 < lim {
        if back % 2 == 0 {
            j - 1
        } else {
            j + 1
        }
    } else {
        j
    }
}

/// The cross: the pairs starting below `n / 2 - 1` swap, from the front and from the
/// back.
pub open spec fn crossed(keys: Seq<usize>) -> Seq<usize> {
    let n = keys.len() as int;
    Seq::new(keys.len(), |j: int| keys[cross_index_upto(n, n / 2 - 1, j)])
}

/// Cross: swaps pairs of key lanes from the outside inward, on both ends.
pub fn cross(notes: &mut Vec<Note>, mode: PlayMode, player: usize, include_scratch: bool)
    ensures
        ({
            let keys = keys_of(mode, player as int, include_scratch);
            &&& final(notes)@ == shuffled(old(notes)@, keys, crossed(keys))
            &&& permutes(crossed(keys), keys)
        }),
{
    let keys = get_keys(mode, player, include_scratch);
    proof {
        lemma_keys_of(mode, player as int, include_scratch);
    }
    let total = mode.lane_count();
    if keys.len() == 0 {
        assert(notes@ =~= shuffled(notes@, keys@, crossed(keys@)));
        proof {
            lemma_crossed_permutes(keys@);
        }
        return;
    }
    let len = keys.len();
    let mut targets = keys.clone();
    let mut i: usize = 0;
    while i < len / 2 - 1
        invariant
            len == keys@.len(),
            len >= 5,
            targets@.len() == len,
            i % 2 == 0,
            i <= len / 2,
            forall|j: int|
                0 <= j < len ==> targets@[j] == keys@[cross_index_upto(len as int, i as int, j)],
        decreases len - i,
    {
        let a = targets[i];
        let b = targets[i + 1];
        targets.set(i, b);
        targets.set(i + 1, a);
        let c = targets[len - i - 1];
        let d = targets[len - i - 2];
        targets.set(len - i - 1, d);
        targets.set(len - i - 2, c);
        i = i + 2;
    }
    assert forall|j: int| 0 <= j < len implies cross_index_upto(len as int, i as int, j)
        == cross_index_upto(len as int, len / 2 - 1, j) by {}
    assert(targets@ =~= crossed(keys@));
    proof {
        lemma_crossed_permutes(keys@);
    }
    apply_key_targets(notes, total, &keys, &targets);
}

proof fn lemma_crossed_permutes(keys: Seq<usize>)
    requires
        increasing(keys),
    ensures
        permutes(crossed(keys), keys),
{
    let c = crossed(keys);
    let n = keys.len() as int;
    assert forall|j: int| 0 <= j < n implies 0 <= #[trigger] cross_index_upto(n, n / 2 - 1, j) < n
        && cross_index_upto(n, n / 2 - 1, cross_index_upto(n, n / 2 - 1, j)) == j by {}
    assert forall|a: int, b: int| 0 <= a < c.len() && 0 <= b < c.len() && a != b implies c[a]
        != c[b] by {
        let ia = cross_index_upto(n, n / 2 - 1, a);
        let ib = cross_index_upto(n, n / 2 - 1, b);
        assert(ia != ib);
    }
    assert forall|j: int| 0 <= j < c.len() implies keys.contains(#[trigger] c[j]) by {
        let ij = cross_index_upto(n, n / 2 - 1, j);
        assert(c[j] == keys[ij]);
    }
}

/// The lanes of a double-play chart with the two sides swapped.
pub open spec fn flipped(total: nat) -> Seq<usize> {
    Seq::new(
        total,
        |i: int|
            (if i < total / 2 {
                i + total / 2
            } else {
                i - total / 2
            }) as usize,
    )
}

/// Flip: swaps the two player sides of a double-play chart; other modes stay.
pub fn flip(notes: &mut Vec<Note>, mode: PlayMode)
    ensures
        mode.players() == 2 ==> final(notes)@ == shuffled(
            old(notes)@,
            all_lanes(mode.lanes()),
            flipped(mode.lanes()),
        ),
        mode.players() == 2 ==> permutes(flipped(mode.lanes()), all_lanes(mode.lanes())),
        mode.players() != 2 ==> final(notes)@ == old(notes)@,
{
    if mode.player_count() != 2 {
        return;
    }
    let total = mode.lane_count();
    let half = total / 2;
    assert(total % 2 == 0);
    let mut keys: Vec<usize> = Vec::new();
    let mut targets: Vec<usize> = Vec::new();
    let mut i: usize = 0;
    while i < total
        invariant
            half == total / 2,
            total % 2 == 0,
            total < 1000,
            i <= total,
            keys@.len() == i,
            targets@.len() == i,
            forall|j: int| 0 <= j < i ==> keys@[j] == j,
            forall|j: int| 0 <= j < i ==> targets@[j] == flipped(total as nat)[j],
        decreases total - i,
    {
        keys.push(i);
        targets.push(
            if i + half < total {
                i + half
            } else {
                i + half - total
            },
        );
        i = i + 1;
    }
    assert(keys@ =~= all_lanes(total as nat));
    assert(targets@ =~= flipped(total as nat));
    let ghost f = flipped(total as nat);
    assert forall|a: int, b: int| 0 <= a < f.len() && 0 <= b < f.len() && a != b implies f[a]
        != f[b] by {}
    assert forall|j: int| 0 <= j < f.len() implies all_lanes(total as nat).contains(#[trigger] f[j]) by {
        assert(all_lanes(total as nat)[f[j] as int] == f[j]);
    }
    apply_key_targets(notes, total, &keys, &targets);
}

/// Whether a note comes before another in the order of time, then lane.
pub open spec fn note_before(a: Note, b: Note) -> bool {
    a.time_us < b.time_us || (a.time_us == b.time_us && a.lane < b.lane)
}

/// The place of a note in a list: before the first note that it comes before.
pub open spec fn insert_pos(s: Seq<Note>, x: Note) -> int
    decreases s.len(),
{
    if s.len() == 0 {
        0
    } else if note_before(x, s[0]) {
        0
    } else {
        1 + insert_pos(s.drop_first(), x)
    }
}

/// The notes sorted by time, then lane, notes that tie keeping their order.
pub open spec fn sorted_stable(s: Seq<Note>) -> Seq<Note>
    decreases s.len(),
{
    if s.len() == 0 {
        s
    } else {
        let t = sorted_stable(s.drop_last());
        t.insert(insert_pos(t, s.last()), s.last())
    }
}

/// Whether no note of a list comes before an earlier one.
pub open spec fn time_lane_sorted(s: Seq<Note>) -> bool {
    forall|i: int, j: int| 0 <= i < j < s.len() ==> !note_before(s[j], s[i])
}

proof fn lemma_insert_pos(s: Seq<Note>, x: Note)
    ensures
        0 <= insert_pos(s, x) <= s.len(),
        forall|k: int| 0 <= k < insert_pos(s, x) ==> !note_before(x, #[trigger] s[k]),
        insert_pos(s, x) < s.len() ==> note_before(x, s[insert_pos(s, x)]),
    decreases s.len(),
{
    if s.len() > 0 && !note_before(x, s[0]) {
        lemma_insert_pos(s.drop_first(), x);
        assert forall|k: int| 0 <= k < insert_pos(s, x) implies !note_before(x, #[trigger] s[k]) by {
            if k > 0 {
                assert(s[k] == s.drop_first()[k - 1]);
            }
        }
    }
}

/// Sorting by time, then lane, gives a sorted list of the same length.
pub proof fn lemma_sorted_stable(s: Seq<Note>)
    ensures
        time_lane_sorted(sorted_stable(s)),
        sorted_stable(s).len() == s.len(),
    decreases s.len(),
{
    if s.len() > 0 {
        let t = sorted_stable(s.drop_last());
        lemma_sorted_stable(s.drop_last());
        let x = s.last();
        lemma_insert_pos(t, x);
        let p = insert_pos(t, x);
        let u = t.insert(p, x);
        assert forall|i: int, j: int| 0 <= i < j < u.len() implies !note_before(u[j], u[i]) by {
            if j < p {
                assert(u[i] == t[i] && u[j] == t[j]);
            } else if j == p {
                assert(u[i] == t[i] && u[j] == x);
            } else if i < p {
                assert(u[i] == t[i] && u[j] == t[j - 1]);
            } else if i == p {
                assert(u[j] == t[j - 1] && u[i] == x);
                assert(note_before(x, t[p]));
                if j - 1 > p {
                    assert(!note_before(t[j - 1], t[p]));
                }
            } else {
                assert(u[i] == t[i - 1] && u[j] == t[j - 1]);
            }
        }
    }
}

/// Sorts notes by time, then lane, keeping the order of notes that tie.
fn sort_by_time_then_lane(v: &Vec<Note>) -> (r: Vec<Note>)
    ensures
        r@ == sorted_stable(v@),
{
    let mut r: Vec<Note> = Vec::new();
    let mut k: usize = 0;
    assert(v@.take(0) =~= Seq::<Note>::empty());
    while k < v.len()
        invariant
            k <= v@.len(),
            r@ == sorted_stable(v@.take(k as int)),
        decreases v@.len() - k,
    {
        let x = v[k];
        proof {
            lemma_sorted_stable(v@.take(k as int));
        }
        let mut p: usize = 0;
        assert(r@.skip(0) =~= r@);
        while p < r.len() && !(x.time_us < r[p].time_us || (x.time_us == r[p].time_us && x.lane
            < r[p].lane))
            invariant
                p <= r@.len(),
                insert_pos(r@, x) == p + insert_pos(r@.skip(p as int), x),
            decreases r@.len() - p,
        {
            assert(r@.skip(p as int).drop_first() =~= r@.skip(p + 1));
            p = p + 1;
        }
        if p < r.len() {
            assert(r@.skip(p as int)[0] == r@[p as int]);
        }
        assert(v@.take(k + 1).drop_last() =~= v@.take(k as int));
        r.insert(p, x);
        k = k + 1;
    }
    assert(v@.take(v@.len() as int) =~= v@);
    r
}

/// The notes of the first player side.
pub open spec fn first_side(notes: Seq<Note>, half: usize) -> Seq<Note> {
    notes.filter(|n: Note| n.lane < half)
}

/// The chart of a battle: the first side's notes, a copy of them on the second side,
/// sorted by time, then lane.
pub open spec fn battled(notes: Seq<Note>, half: usize) -> Seq<Note> {
    let p1 = first_side(notes, half);
    sorted_stable(p1 + p1.map_values(|n: Note| with_lane(n, (n.lane + half) as usize)))
}

/// Battle: in a double-play chart, replaces the second side's notes with a copy of
/// the first side's, then sorts by time, then lane; other modes stay.
pub fn battle(notes: &mut Vec<Note>, mode: PlayMode)
    ensures
        mode.players() == 2 ==> final(notes)@ == battled(old(notes)@, (mode.lanes() / 2) as usize),
        mode.players() != 2 ==> final(notes)@ == old(notes)@,
{
    if mode.player_count() != 2 {
        return;
    }
    let total = mode.lane_count();
    let half = total / 2;
    let mut p1: Vec<Note> = Vec::new();
    let mut k: usize = 0;
    assert(notes@.take(0) =~= Seq::<Note>::empty());
    assert(half < 1000);
    while k < notes.len()
        invariant
            k <= notes@.len(),
            p1@ == first_side(notes@.take(k as int), half),
        decreases notes@.len() - k,
    {
        assert(notes@.take(k + 1).drop_last() =~= notes@.take(k as int));
        assert(notes@.take(k + 1).last() == notes@[k as int]);
        proof {
            reveal(Seq::filter);
        }
        if notes[k].lane < half {
            p1.push(notes[k]);
        }
        k = k + 1;
    }
    assert(notes@.take(notes@.len() as int) =~= notes@);
    let ghost first = p1@;
    let mut all = p1.clone();
    let mut j: usize = 0;
    while j < p1.len()
        invariant
            p1@ == first,
            j <= first.len(),
            forall|m: int| 0 <= m < first.len() ==> first[m].lane < half,
            half < 1000,
            all@ == first + first.map_values(|n: Note| with_lane(n, (n.lane + half) as usize)).take(
                j as int,
            ),
        decreases first.len() - j,
    {
        let mut n = p1[j];
        n.lane = n.lane + half;
        assert(first.map_values(|n: Note| with_lane(n, (n.lane + half) as usize)).take(j + 1)
            =~= first.map_values(|n: Note| with_lane(n, (n.lane + half) as usize)).take(
            j as int,
        ).push(n));
        all.push(n);
        j = j + 1;
    }
    assert(first.map_values(|n: Note| with_lane(n, (n.lane + half) as usize)).take(
        first.len() as int,
    ) =~= first.map_values(|n: Note| with_lane(n, (n.lane + half) as usize)));
    *notes = sort_by_time_then_lane(&all);
}

/// The three-button chords of the nine-button mode (buttons numbered from 1) that no
/// hand can press.
pub open spec fn impossible_chords() -> Seq<Seq<usize>> {
    seq![
        seq![1usize, 4, 7],
        seq![1usize, 4, 8],
        seq![1usize, 4, 9],
        seq![1usize, 5, 8],
        seq![1usize, 5, 9],
        seq![1usize, 6, 9],
        seq![2usize, 5, 8],
        seq![2usize, 5, 9],
        seq![2usize, 6, 9],
        seq![3usize, 6, 9],
    ]
}

fn impossible_chord_list() -> (r: Vec<Vec<usize>>)
    ensures
        r@.len() == impossible_chords().len(),
        forall|c: int| 0 <= c < r@.len() ==> #[trigger] r@[c]@ == impossible_chords()[c],
{
    let r = vec![
        vec![1, 4, 7],
        vec![1, 4, 8],
        vec![1, 4, 9],
        vec![1, 5, 8],
        vec![1, 5, 9],
        vec![1, 6, 9],
        vec![2, 5, 8],
        vec![2, 5, 9],
        vec![2, 6, 9],
        vec![3, 6, 9],
    ];
    assert(r@[0]@ =~= impossible_chords()[0]);
    assert(r@[1]@ =~= impossible_chords()[1]);
    assert(r@[2]@ =~= impossible_chords()[2]);
    assert(r@[3]@ =~= impossible_chords()[3]);
    assert(r@[4]@ =~= impossible_chords()[4]);
    assert(r@[5]@ =~= impossible_chords()[5]);
    assert(r@[6]@ =~= impossible_chords()[6]);
    assert(r@[7]@ =~= impossible_chords()[7]);
    assert(r@[8]@ =~= impossible_chords()[8]);
    assert(r@[9]@ =~= impossible_chords()[9]);
    r
}

/// Whether button `b` (numbered from 1) is pressed when the lanes of a chord pattern
/// (bit `j` for lane `j`) are moved by `lanes` (lane `j` to lane `lanes[j]`).
pub open spec fn presses(pattern: u32, lanes: Seq<usize>, b: usize) -> bool {
    exists|j: int|
        0 <= j < 9 && (pattern >> (j as u32)) & 1u32 == 1u32 && #[trigger] lanes[j] + 1 == b
}

/// Whether moving the lanes makes one of the chord patterns an impossible chord.
pub open spec fn makes_impossible(patterns: Seq<u32>, lanes: Seq<usize>) -> bool {
    exists|p: int, c: int|
        0 <= p < patterns.len() && 0 <= c < 10 && #[trigger] presses(
            patterns[p],
            lanes,
            impossible_chords()[c][0],
        ) && presses(patterns[p], lanes, impossible_chords()[c][1]) && presses(
            patterns[p],
            lanes,
            impossible_chords()[c][2],
        )
}

/// Whether some chord pattern, with its lanes moved as `lane_numbers` says, holds an
/// impossible chord.
fn has_murioshi(patterns: &Vec<u32>, lane_numbers: &Vec<usize>) -> (r: bool)
    requires
        lane_numbers@.len() == 9,
        forall|j: int| 0 <= j < 9 ==> #[trigger] lane_numbers@[j] < 9,
    ensures
        r == makes_impossible(patterns@, lane_numbers@),
{
    let chords = impossible_chord_list();
    let mut p: usize = 0;
    while p < patterns.len()
        invariant
            p <= patterns@.len(),
            lane_numbers@.len() == 9,
            forall|j: int| 0 <= j < 9 ==> #[trigger] lane_numbers@[j] < 9,
            chords@.len() == 10,
            forall|c: int| 0 <= c < 10 ==> #[trigger] chords@[c]@ == impossible_chords()[c],
            forall|pp: int, c: int|
                0 <= pp < p && 0 <= c < 10 ==> !(#[trigger] presses(
                    patterns@[pp],
                    lane_numbers@,
                    impossible_chords()[c][0],
                ) && presses(patterns@[pp], lane_numbers@, impossible_chords()[c][1]) && presses(
                    patterns@[pp],
                    lane_numbers@,
                    impossible_chords()[c][2],
                )),
        decreases patterns@.len() - p,
    {
        let pattern = patterns[p];
        let mut remapped: Vec<usize> = Vec::new();
        let mut j: usize = 0;
        while j < 9
            invariant
                j <= 9,
                lane_numbers@.len() == 9,
                forall|jj: int| 0 <= jj < 9 ==> #[trigger] lane_numbers@[jj] < 9,
                forall|b: usize|
                    remapped@.contains(b) <==> exists|jj: int|
                        0 <= jj < j && (pattern >> (jj as u32)) & 1u32 == 1u32 && #[trigger] lane_numbers@[jj]
                            + 1 == b,
            decreases 9 - j,
        {
            let ghost before = remapped@;
            if (pattern >> (j as u32)) & 1 == 1 {
                remapped.push(lane_numbers[j] + 1);
                assert forall|b: usize| remapped@.contains(b) <==> exists|jj: int|
                    0 <= jj < j + 1 && (pattern >> (jj as u32)) & 1u32 == 1u32
                        && #[trigger] lane_numbers@[jj] + 1 == b by {
                    if remapped@.contains(b) {
                        let k = choose|k: int| 0 <= k < remapped@.len() && remapped@[k] == b;
                        if k < before.len() {
                            assert(before.contains(b));
                        }
                    }
                    if exists|jj: int|
                        0 <= jj < j + 1 && (pattern >> (jj as u32)) & 1u32 == 1u32
                            && #[trigger] lane_numbers@[jj] + 1 == b {
                        let jj = choose|jj: int|
                            0 <= jj < j + 1 && (pattern >> (jj as u32)) & 1u32 == 1u32
                                && #[trigger] lane_numbers@[jj] + 1 == b;
                        if jj < j {
                            assert(before.contains(b));
                            let k = choose|k: int| 0 <= k < before.len() && before[k] == b;
                            assert(remapped@[k] == b);
                        } else {
                            assert(remapped@[before.len() as int] == b);
                        }
                    }
                }
            } else {
                assert forall|b: usize| remapped@.contains(b) <==> exists|jj: int|
                    0 <= jj < j + 1 && (pattern >> (jj as u32)) & 1u32 == 1u32
                        && #[trigger] lane_numbers@[jj] + 1 == b by {
                    if exists|jj: int|
                        0 <= jj < j + 1 && (pattern >> (jj as u32)) & 1u32 == 1u32
                            && #[trigger] lane_numbers@[jj] + 1 == b {
                        let jj = choose|jj: int|
                            0 <= jj < j + 1 && (pattern >> (jj as u32)) & 1u32 == 1u32
                                && #[trigger] lane_numbers@[jj] + 1 == b;
                        assert(jj < j);
                    }
                }
            }
            j = j + 1;
        }
        assert forall|b: usize| remapped@.contains(b) <==> presses(pattern, lane_numbers@, b) by {}
        let mut c: usize = 0;
        while c < chords.len()
            invariant
                p < patterns@.len(),
                pattern == patterns@[p as int],
                c <= chords@.len(),
                chords@.len() == 10,
                forall|cc: int| 0 <= cc < 10 ==> #[trigger] chords@[cc]@ == impossible_chords()[cc],
                forall|b: usize| remapped@.contains(b) <==> presses(pattern, lane_numbers@, b),
                forall|cc: int|
                    0 <= cc < c ==> !(#[trigger] presses(
                        pattern,
                        lane_numbers@,
                        impossible_chords()[cc][0],
                    ) && presses(pattern, lane_numbers@, impossible_chords()[cc][1]) && presses(
                        pattern,
                        lane_numbers@,
                        impossible_chords()[cc][2],
                    )),
            decreases chords@.len() - c,
        {
            let chord = &chords[c];
            assert(chord@ == impossible_chords()[c as int]);
            let all = vec_contains(&remapped, chord[0]) && vec_contains(&remapped, chord[1])
                && vec_contains(&remapped, chord[2]);
            if all {
                assert(presses(patterns@[p as int], lane_numbers@, impossible_chords()[c as int][0]));
                return true;
            }
            c = c + 1;
        }
        p = p + 1;
    }
    false
}

fn vec_contains(v: &Vec<usize>, x: usize) -> (r: bool)
    ensures
        r == v@.contains(x),
{
    let mut i: usize = 0;
    while i < v.len()
        invariant
            i <= v@.len(),
            forall|k: int| 0 <= k < i ==> v@[k] != x,
        decreases v@.len() - i,
    {
        if v[i] == x {
            assert(v@[i as int] == x);
            return true;
        }
        i = i + 1;
    }
    false
}

/// Whether a list is an arrangement of the nine lanes.
pub open spec fn nine_lane_order(a: Seq<usize>) -> bool {
    &&& a.len() == 9
    &&& a.no_duplicates()
    &&& forall|j: int| 0 <= j < 9 ==> #[trigger] a[j] < 9
}

proof fn lemma_swap_order(a: Seq<usize>, x: int, y: int)
    requires
        nine_lane_order(a),
        0 <= x < 9,
        0 <= y < 9,
    ensures
        nine_lane_order(a.update(x, a[y]).update(y, a[x])),
{
    let b = a.update(x, a[y]).update(y, a[x]);
    assert forall|i: int, j: int| 0 <= i < b.len() && 0 <= j < b.len() && i != j implies b[i]
        != b[j] by {
        let ii = if i == y {
            x
        } else if i == x {
            y
        } else {
            i
        };
        let jj = if j == y {
            x
        } else if j == x {
            y
        } else {
            j
        };
        assert(b[i] == a[ii] && b[j] == a[jj]);
    }
}

/// Whether the arrangement `b` is among the recorded ones.
pub open spec fn recorded(results: Seq<Vec<usize>>, b: Seq<usize>) -> bool {
    exists|r: int| 0 <= r < results.len() && #[trigger] results[r]@ == b
}

/// The records made before stay, at their places.
pub open spec fn keeps_records(before: Seq<Vec<usize>>, after: Seq<Vec<usize>>) -> bool {
    &&& before.len() <= after.len()
    &&& forall|r: int| 0 <= r < before.len() ==> #[trigger] after[r] == before[r]
}

proof fn lemma_still_recorded(before: Seq<Vec<usize>>, after: Seq<Vec<usize>>, b: Seq<usize>)
    requires
        recorded(before, b),
        keeps_records(before, after),
    ensures
        recorded(after, b),
{
    let r = choose|r: int| 0 <= r < before.len() && before[r]@ == b;
    assert(after[r] == before[r]);
}

/// Heap's algorithm on the first `k` places: visits every other order of them, each
/// after one swap, and records those that make no chord pattern impossible; in the end
/// the places are moved as one pass of the algorithm moves them.
fn search_heap(
    k: usize,
    a: &mut Vec<usize>,
    patterns: &Vec<u32>,
    results: &mut Vec<Vec<usize>>,
)
    requires
        1 <= k <= 9,
        nine_lane_order(old(a)@),
        forall|r: int|
            0 <= r < old(results)@.len() ==> nine_lane_order(#[trigger] old(results)@[r]@)
                && !makes_impossible(patterns@, old(results)@[r]@),
    ensures
        nine_lane_order(final(a)@),
        final(a)@ == arrange(old(a)@, heap_pass(k as nat)),
        forall|r: int|
            0 <= r < final(results)@.len() ==> nine_lane_order(#[trigger] final(results)@[r]@)
                && !makes_impossible(patterns@, final(results)@[r]@),
        keeps_records(old(results)@, final(results)@),
        forall|p: Seq<int>|
            #![trigger arrange(old(a)@, p)]
            moves_first(p, k as int) && arrange(old(a)@, p) != old(a)@ && !makes_impossible(
                patterns@,
                arrange(old(a)@, p),
            ) ==> recorded(final(results)@, arrange(old(a)@, p)),
    decreases k,
{
    let ghost a0 = a@;
    let ghost r0 = results@;
    if k == 1 {
        proof {
            lemma_arrange_identity(a0);
            assert forall|p: Seq<int>| moves_first(p, 1) implies arrange(a0, p) == a0 by {
                assert(p[0] == 0);
                assert(arrange(a0, p) =~= a0);
            }
        }
        return;
    }
    let ghost h = heap_pass((k - 1) as nat);
    proof {
        lemma_heap_moves(k as nat);
        lemma_heap_moves((k - 1) as nat);
        lemma_arrange_identity(a0);
        assert forall|j: int| 0 <= j < h.len() implies 0 <= #[trigger] h[j] < 9 by {
            if j >= k - 1 {
                assert(h[j] == j);
            }
        }
        lemma_compose_identity(h);
    }
    search_heap(k - 1, a, patterns, results);
    proof {
        assert(heap_round_start(k as int, 0, h) == identity_places());
    }
    let mut i: usize = 0;
    while i < k - 1
        invariant
            2 <= k <= 9,
            i <= k - 1,
            h == heap_pass((k - 1) as nat),
            nine_lane_order(a0),
            nine_lane_order(a@),
            forall|j: int| 0 <= j < h.len() ==> 0 <= #[trigger] h[j] < 9,
            forall|ii: nat|
                ii < k ==> moves_first(#[trigger] heap_round_start(k as int, ii, h), k as int)
                    && onto_places(heap_round_start(k as int, ii, h)),
            a@ == arrange(a0, compose(heap_round_start(k as int, i as nat, h), h)),
            forall|r: int|
                0 <= r < results@.len() ==> nine_lane_order(#[trigger] results@[r]@)
                    && !makes_impossible(patterns@, results@[r]@),
            keeps_records(r0, results@),
            forall|r: nat, p: Seq<int>|
                #![trigger arrange(arrange(a0, heap_round_start(k as int, r, h)), p)]
                r <= i && moves_first(p, k - 1) && arrange(
                    arrange(a0, heap_round_start(k as int, r, h)),
                    p,
                ) != a0 && !makes_impossible(
                    patterns@,
                    arrange(arrange(a0, heap_round_start(k as int, r, h)), p),
                ) ==> recorded(results@, arrange(arrange(a0, heap_round_start(k as int, r, h)), p)),
        decreases k - 1 - i,
    {
        let x = if k % 2 == 0 {
            i
        } else {
            0
        };
        let y = k - 1;
        let ax = a[x];
        let ay = a[y];
        let ghost before = a@;
        let ghost sc = compose(heap_round_start(k as int, i as nat, h), h);
        proof {
            lemma_swap_order(a@, x as int, y as int);
            lemma_arrange_swap(a0, sc, x as int, y as int);
            assert(heap_round_start(k as int, (i + 1) as nat, h) == swap_places(sc, x as int, y as int));
        }
        a.set(x, ay);
        a.set(y, ax);
        let ghost t = a@;
        let ghost rm = results@;
        proof {
            assert(t == arrange(a0, heap_round_start(k as int, (i + 1) as nat, h)));
        }
        if !has_murioshi(patterns, a) {
            results.push(a.clone());
            proof {
                assert(results@[results@.len() - 1]@ == t);
            }
        }
        let ghost rp = results@;
        search_heap(k - 1, a, patterns, results);
        proof {
            lemma_arrange_compose(a0, heap_round_start(k as int, (i + 1) as nat, h), h);
            assert forall|r: nat, p: Seq<int>|
                r <= i + 1 && moves_first(p, k - 1) && arrange(
                    arrange(a0, heap_round_start(k as int, r, h)),
                    p,
                ) != a0 && !makes_impossible(
                    patterns@,
                    arrange(arrange(a0, heap_round_start(k as int, r, h)), p),
                ) implies recorded(
                results@,
                #[trigger] arrange(arrange(a0, heap_round_start(k as int, r, h)), p),
            ) by {
                let b = arrange(arrange(a0, heap_round_start(k as int, r, h)), p);
                if r <= i {
                    assert(recorded(rm, b));
                    lemma_still_recorded(rm, results@, b);
                } else if b == t {
                    assert(recorded(rp, b)) by {
                        assert(rp[rp.len() - 1]@ == t);
                    }
                    lemma_still_recorded(rp, results@, b);
                } else {
                    assert(arrange(t, p) == b);
                }
            }
        }
        i = i + 1;
    }
    proof {
        assert(heap_pass(k as nat) == compose(heap_round_start(k as int, (k - 1) as nat, h), h));
        assert forall|p: Seq<int>|
            moves_first(p, k as int) && arrange(a0, p) != a0 && !makes_impossible(
                patterns@,
                arrange(a0, p),
            ) implies recorded(results@, #[trigger] arrange(a0, p)) by {
            let q = p[k - 1];
            lemma_heap_covers(k as int, q);
            let r = choose|r: nat| r < k && heap_round_start(k as int, r, h)[k - 1] == q;
            let s0 = heap_round_start(k as int, r, h);
            let p2 = lemma_split_last(s0, p, k as int);
            lemma_arrange_compose(a0, s0, p2);
            assert(arrange(arrange(a0, s0), p2) == arrange(a0, p));
        }
    }
}

/// The reversed order of the nine lanes.
pub open spec fn reversed_nine() -> Seq<usize> {
    seq![8usize, 7, 6, 5, 4, 3, 2, 1, 0]
}

/// Searches the orders of the nine lanes that make no chord pattern impossible, in the
/// order of Heap's algorithm from the identity, without the reversed order: every such
/// order is found, and nothing else.
fn search_no_murioshi_combinations(patterns: &Vec<u32>) -> (r: Vec<Vec<usize>>)
    ensures
        forall|c: int|
            0 <= c < r@.len() ==> nine_lane_order(#[trigger] r@[c]@) && !makes_impossible(
                patterns@,
                r@[c]@,
            ) && r@[c]@ != reversed_nine(),
        forall|b: Seq<usize>|
            nine_lane_order(b) && !makes_impossible(patterns@, b) && b != reversed_nine()
                ==> #[trigger] recorded(r@, b),
{
    let mut results: Vec<Vec<usize>> = Vec::new();
    let mut lane_numbers: Vec<usize> = vec![0, 1, 2, 3, 4, 5, 6, 7, 8];
    let ghost a0 = lane_numbers@;
    assert(nine_lane_order(lane_numbers@));
    if !has_murioshi(patterns, &lane_numbers) {
        results.push(lane_numbers.clone());
        assert(results@[0]@ == a0);
    }
    let ghost r0 = results@;
    search_heap(9, &mut lane_numbers, patterns, &mut results);
    proof {
        assert forall|b: Seq<usize>| nine_lane_order(b) && !makes_impossible(patterns@, b)
            implies #[trigger] recorded(results@, b) by {
            if b == a0 {
                assert(recorded(r0, b)) by {
                    assert(r0[0]@ == a0);
                }
                lemma_still_recorded(r0, results@, b);
            } else {
                let p = Seq::new(9, |j: int| b[j] as int);
                assert(moves_first(p, 9)) by {
                    assert forall|x: int, y: int| 0 <= x < p.len() && 0 <= y < p.len() && x != y
                        implies p[x] != p[y] by {
                        assert(b[x] != b[y]);
                    }
                }
                assert(arrange(a0, p) =~= b);
            }
        }
    }
    let mut kept: Vec<Vec<usize>> = Vec::new();
    let mut c: usize = 0;
    while c < results.len()
        invariant
            c <= results@.len(),
            forall|r: int|
                0 <= r < results@.len() ==> nine_lane_order(#[trigger] results@[r]@)
                    && !makes_impossible(patterns@, results@[r]@),
            forall|r: int|
                0 <= r < kept@.len() ==> nine_lane_order(#[trigger] kept@[r]@) && !makes_impossible(
                    patterns@,
                    kept@[r]@,
                ) && kept@[r]@ != reversed_nine(),
            forall|r: int|
                0 <= r < c && #[trigger] results@[r]@ != reversed_nine() ==> recorded(
                    kept@,
                    results@[r]@,
                ),
        decreases results@.len() - c,
    {
        let cand = &results[c];
        let ghost kb = kept@;
        let is_mirror = cand[0] == 8 && cand[1] == 7 && cand[2] == 6 && cand[3] == 5 && cand[4]
            == 4 && cand[5] == 3 && cand[6] == 2 && cand[7] == 1 && cand[8] == 0;
        if !is_mirror {
            assert(cand@ != reversed_nine()) by {
                if cand@ == reversed_nine() {
                    assert(cand@[0] == 8 && cand@[1] == 7 && cand@[2] == 6 && cand@[3] == 5);
                    assert(cand@[4] == 4 && cand@[5] == 3 && cand@[6] == 2 && cand@[7] == 1);
                    assert(cand@[8] == 0);
                }
            }
            kept.push(cand.clone());
            proof {
                assert(keeps_records(kb, kept@));
                assert forall|r: int| 0 <= r < c && #[trigger] results@[r]@ != reversed_nine()
                    implies recorded(kept@, results@[r]@) by {
                    lemma_still_recorded(kb, kept@, results@[r]@);
                }
                assert(kept@[kept@.len() - 1]@ == results@[c as int]@);
            }
        } else {
            proof {
                assert(results@[c as int]@ =~= reversed_nine());
            }
        }
        c = c + 1;
    }
    proof {
        assert forall|b: Seq<usize>|
            nine_lane_order(b) && !makes_impossible(patterns@, b) && b != reversed_nine()
                implies #[trigger] recorded(kept@, b) by {
            assert(recorded(results@, b));
            let r = choose|r: int| 0 <= r < results@.len() && results@[r]@ == b;
            assert(results@[r]@ != reversed_nine());
        }
    }
    kept
}

/// The end of the timeslice that starts at `start`: the first index from `k` on whose
/// time differs from the time at `start`, or the end of the list.
pub open spec fn slice_end(notes: Seq<Note>, start: int, k: int) -> int
    decreases notes.len() - k,
{
    if k < 0 || k >= notes.len() || notes[k].time_us != notes[start].time_us {
        k
    } else {
        slice_end(notes, start, k + 1)
    }
}

/// A timeslice ends at or after where the search for its end starts.
pub proof fn lemma_slice_end(notes: Seq<Note>, start: int, k: int)
    requires
        0 <= k <= notes.len(),
    ensures
        k <= slice_end(notes, start, k) <= notes.len(),
    decreases notes.len() - k,
{
    if k < notes.len() && notes[k].time_us == notes[start].time_us {
        lemma_slice_end(notes, start, k + 1);
    }
}

/// The long notes held after the notes of a timeslice at `time`, lane by lane (held,
/// and until when): a long note on a lane held until `time` ends the hold; any other
/// long note starts one, until its end time.
pub open spec fn held_after_slice(held: (Seq<bool>, Seq<i64>), slice: Seq<Note>, time: i64, total: int) -> (
    Seq<bool>,
    Seq<i64>,
)
    decreases slice.len(),
{
    if slice.len() == 0 {
        held
    } else {
        let (a, e) = held_after_slice(held, slice.drop_last(), time, total);
        let n = slice.last();
        if n.note_type.long() && n.lane < total {
            if a[n.lane as int] && time == e[n.lane as int] {
                (a.update(n.lane as int, false), e.update(n.lane as int, -1i64))
            } else {
                (a.update(n.lane as int, true), e.update(n.lane as int, n.end_time_us))
            }
        } else {
            (a, e)
        }
    }
}

/// Whether a timeslice has a playable note on a lane.
pub open spec fn slice_has_note(slice: Seq<Note>, lane: int) -> bool {
    exists|m: int| 0 <= m < slice.len() && #[trigger] slice[m].lane == lane && slice[m].note_type.playable()
}

/// The lanes below `upto`, in order, that a timeslice presses: those with a playable
/// note or a long note held.
pub open spec fn pressed_lanes(held: Seq<bool>, slice: Seq<Note>, upto: int) -> Seq<usize>
    decreases upto,
{
    if upto <= 0 {
        Seq::empty()
    } else {
        let rest = pressed_lanes(held, slice, upto - 1);
        if slice_has_note(slice, upto - 1) || held[upto - 1] {
            rest.push((upto - 1) as usize)
        } else {
            rest
        }
    }
}

/// The bits of some lanes (bit `l` for lane `l`).
pub open spec fn lane_bits(lanes: Seq<usize>) -> u32
    decreases lanes.len(),
{
    if lanes.len() == 0 {
        0
    } else {
        lane_bits(lanes.drop_last()) | (1u32 << (lanes.last() as u32))
    }
}

/// The chord patterns from the timeslice at `start` on, given the long notes held: one
/// per timeslice that presses three to six lanes; `None` when a timeslice presses seven
/// or more.
pub open spec fn chord_run(notes: Seq<Note>, total: int, start: int, held: (Seq<bool>, Seq<i64>)) -> Option<
    Seq<u32>,
>
    decreases notes.len() - start,
{
    if start < 0 || start >= notes.len() {
        Some(Seq::empty())
    } else {
        let end = slice_end(notes, start, start + 1);
        proof {
            lemma_slice_end(notes, start, start + 1);
        }
        let slice = notes.subrange(start, end);
        let h = held_after_slice(held, slice, notes[start].time_us, total);
        let lanes = pressed_lanes(h.0, slice, total);
        if lanes.len() >= 7 {
            None
        } else {
            match chord_run(notes, total, end, h) {
                None => None,
                Some(rest) => Some(
                    if lanes.len() >= 3 {
                        seq![lane_bits(lanes)] + rest
                    } else {
                        rest
                    },
                ),
            }
        }
    }
}

/// The chord patterns of a chart with `total` lanes, from no long note held.
pub open spec fn chord_patterns_of(notes: Seq<Note>, total: int) -> Option<Seq<u32>> {
    chord_run(
        notes,
        total,
        0,
        (Seq::new(total as nat, |_i: int| false), Seq::new(total as nat, |_i: int| -1i64)),
    )
}

/// The chord patterns of a nine-button chart, one per timeslice with three to six
/// notes (playable notes and held long notes together; bit `j` for lane `j`); `None`
/// when a timeslice has seven or more, which no arrangement makes playable.
fn chord_patterns(notes: &Vec<Note>, total: usize) -> (r: Option<Vec<u32>>)
    requires
        total <= 32,
    ensures
        match r {
            Some(v) => chord_patterns_of(notes@, total as int) == Some(v@),
            None => chord_patterns_of(notes@, total as int) is None,
        },
{
    let mut ln_active: Vec<bool> = Vec::new();
    let mut ln_end_time: Vec<i64> = Vec::new();
    let mut t: usize = 0;
    while t < total
        invariant
            t <= total,
            ln_active@ == Seq::new(t as nat, |_i: int| false),
            ln_end_time@ == Seq::new(t as nat, |_i: int| -1i64),
        decreases total - t,
    {
        ln_active.push(false);
        ln_end_time.push(-1);
        t = t + 1;
        assert(ln_active@ =~= Seq::new(t as nat, |_i: int| false));
        assert(ln_end_time@ =~= Seq::new(t as nat, |_i: int| -1i64));
    }
    let mut patterns: Vec<u32> = Vec::new();
    let mut start: usize = 0;
    assert(patterns@ + Seq::<u32>::empty() =~= patterns@);
    while start < notes.len()
        invariant
            total <= 32,
            start <= notes@.len(),
            ln_active@.len() == total,
            ln_end_time@.len() == total,
            chord_patterns_of(notes@, total as int) == match chord_run(
                notes@,
                total as int,
                start as int,
                (ln_active@, ln_end_time@),
            ) {
                None => None,
                Some(rest) => Some(patterns@ + rest),
            },
        decreases notes@.len() - start,
    {
        let time = notes[start].time_us;
        let mut end = start + 1;
        while end < notes.len() && notes[end].time_us == time
            invariant
                start < end <= notes@.len(),
                time == notes@[start as int].time_us,
                slice_end(notes@, start as int, start + 1) == slice_end(
                    notes@,
                    start as int,
                    end as int,
                ),
            decreases notes@.len() - end,
        {
            end = end + 1;
        }
        let ghost slice = notes@.subrange(start as int, end as int);
        let ghost held0 = (ln_active@, ln_end_time@);
        assert(notes@.subrange(start as int, start as int) =~= Seq::<Note>::empty());
        let mut k = start;
        while k < end
            invariant
                start <= k <= end <= notes@.len(),
                ln_active@.len() == total,
                ln_end_time@.len() == total,
                time == notes@[start as int].time_us,
                (ln_active@, ln_end_time@) == held_after_slice(
                    held0,
                    notes@.subrange(start as int, k as int),
                    time,
                    total as int,
                ),
            decreases end - k,
        {
            let n = notes[k];
            assert(notes@.subrange(start as int, k + 1).drop_last() =~= notes@.subrange(
                start as int,
                k as int,
            ));
            if n.is_long_note() && n.lane < total {
                if ln_active[n.lane] && time == ln_end_time[n.lane] {
                    ln_active.set(n.lane, false);
                    ln_end_time.set(n.lane, -1);
                } else {
                    ln_active.set(n.lane, true);
                    ln_end_time.set(n.lane, n.end_time_us);
                }
            }
            k = k + 1;
        }
        let mut note_lanes: Vec<usize> = Vec::new();
        let mut i: usize = 0;
        while i < total
            invariant
                total <= 32,
                start < end <= notes@.len(),
                slice == notes@.subrange(start as int, end as int),
                i <= total,
                ln_active@.len() == total,
                note_lanes@ == pressed_lanes(ln_active@, slice, i as int),
                note_lanes@.len() <= i,
                forall|j: int| 0 <= j < note_lanes@.len() ==> #[trigger] note_lanes@[j] < i,
            decreases total - i,
        {
            let mut has_note = false;
            let mut m = start;
            while m < end
                invariant
                    start <= m <= end <= notes@.len(),
                    slice == notes@.subrange(start as int, end as int),
                    i < total,
                    has_note == exists|mm: int|
                        0 <= mm < m - start && #[trigger] slice[mm].lane == i
                            && slice[mm].note_type.playable(),
                decreases end - m,
            {
                assert(slice[m - start] == notes@[m as int]);
                if notes[m].lane == i && crate::pattern::is_playable(notes[m].note_type) {
                    has_note = true;
                }
                m = m + 1;
            }
            assert(has_note == slice_has_note(slice, i as int));
            if has_note || ln_active[i] {
                note_lanes.push(i);
            }
            i = i + 1;
        }
        if note_lanes.len() >= 7 {
            return None;
        } else if note_lanes.len() >= 3 {
            let mut pattern: u32 = 0;
            let mut j: usize = 0;
            assert(note_lanes@.take(0) =~= Seq::<usize>::empty());
            while j < note_lanes.len()
                invariant
                    total <= 32,
                    j <= note_lanes@.len(),
                    forall|jj: int| 0 <= jj < note_lanes@.len() ==> #[trigger] note_lanes@[jj] < total,
                    pattern == lane_bits(note_lanes@.take(j as int)),
                decreases note_lanes@.len() - j,
            {
                let l = note_lanes[j];
                assert(note_lanes@.take(j + 1).drop_last() =~= note_lanes@.take(j as int));
                pattern = pattern | (1u32 << (l as u32));
                j = j + 1;
            }
            assert(note_lanes@.take(note_lanes@.len() as int) =~= note_lanes@);
            let ghost before = patterns@;
            patterns.push(pattern);
            proof {
                match chord_run(notes@, total as int, end as int, (ln_active@, ln_end_time@)) {
                    None => {},
                    Some(rest) => {
                        assert(before + (seq![pattern] + rest) =~= patterns@ + rest);
                    },
                }
            }
        }
        start = end;
    }
    Some(patterns)
}

/// Playable Random with a chosen arrangement: the note on lane `j` moves to lane
/// `order[j]`, for each of the nine lanes.
fn apply_order(notes: &mut Vec<Note>, order: &Vec<usize>)
    requires
        nine_lane_order(order@),
    ensures
        final(notes)@ == shuffled(old(notes)@, all_lanes(9), order@),
{
    let mut keys: Vec<usize> = Vec::new();
    let mut k: usize = 0;
    while k < 9
        invariant
            k <= 9,
            keys@.len() == k,
            forall|j: int| 0 <= j < k ==> keys@[j] == j,
        decreases 9 - k,
    {
        keys.push(k);
        k = k + 1;
    }
    assert(keys@ =~= all_lanes(9));
    apply_key_targets(notes, 9, &keys, order);
}

/// Whether some arrangement of the nine lanes other than the reversed one makes none of
/// the chord patterns impossible.
pub open spec fn playable_order_exists(patterns: Seq<u32>) -> bool {
    exists|order: Seq<usize>|
        nine_lane_order(order) && order != reversed_nine() && !makes_impossible(patterns, order)
}

/// The notes moved by such an arrangement of the nine lanes, for the chord patterns of
/// the chart: the note on lane `j` goes to lane `order[j]`.
pub open spec fn moved_by_playable_order(old: Seq<Note>, new: Seq<Note>, lanes: int) -> bool {
    exists|order: Seq<usize>|
        #![trigger shuffled(old, all_lanes(9), order)]
        {
            &&& nine_lane_order(order)
            &&& order != reversed_nine()
            &&& chord_patterns_of(old, lanes) matches Some(ps) && !makes_impossible(ps, order)
            &&& shuffled(old, all_lanes(9), order) == new
        }
}

proof fn lemma_lanes_from_all(mode: PlayMode, start: int, n: int)
    requires
        0 <= n,
        forall|l: int| !mode.scratch_lane(l),
    ensures
        lanes_from(mode, false, start, n).len() == n,
    decreases n,
{
    if n > 0 {
        lemma_lanes_from_all(mode, start, n - 1);
    }
}

/// A side with nine key lanes belongs to a mode of at most 32 lanes.
proof fn lemma_nine_keys_fit(mode: PlayMode, player: int)
    requires
        keys_of(mode, player, false).len() == 9,
    ensures
        mode.lanes() <= 32,
{
    if mode == PlayMode::Keyboard24KDouble && 0 <= player < mode.players() {
        lemma_lanes_from_all(mode, 26 * player, 26);
    }
}

/// Playable Random (nine-button mode): a lane shuffle that avoids impossible chords.
/// It draws among the arrangements of the nine lanes (the reversed one left out) that
/// make no chord pattern of the chart impossible (the lanes of a pattern moved as the
/// arrangement says), and moves the note on lane `j` to lane `order[j]`; only when none
/// exists, or some timeslice has seven notes or more, it mirrors the chart or leaves it,
/// at even odds. Other modes get Random.
pub fn playable_random(notes: &mut Vec<Note>, mode: PlayMode, player: usize, rng: &mut SmallRng)
    ensures
        ({
            let keys = keys_of(mode, player as int, false);
            &&& keys.len() != 9 ==> exists|draws: Seq<usize>|
                {
                    &&& valid_draws(draws, keys.len())
                    &&& #[trigger] shuffled(old(notes)@, keys, drawn_targets(keys, draws))
                        == final(notes)@
                }
            &&& keys.len() == 9 ==> {
                ||| final(notes)@ == old(notes)@
                ||| final(notes)@ == shuffled(old(notes)@, keys, keys.reverse())
                ||| moved_by_playable_order(old(notes)@, final(notes)@, mode.lanes() as int)
            }
            &&& keys.len() == 9 && (chord_patterns_of(old(notes)@, mode.lanes() as int) matches Some(
                ps,
            ) && playable_order_exists(ps)) ==> moved_by_playable_order(
                old(notes)@,
                final(notes)@,
                mode.lanes() as int,
            )
        }),
{
    let keys = get_keys(mode, player, false);
    if keys.len() == 0 || keys.len() != 9 {
        lane_random(notes, mode, player, false, rng);
        return;
    }
    proof {
        lemma_keys_of(mode, player as int, false);
        lemma_nine_keys_fit(mode, player as int);
    }
    let total = mode.lane_count();
    if total <= 32 {
        if let Some(patterns) = chord_patterns(notes, total) {
            let candidates = search_no_murioshi_combinations(&patterns);
            proof {
                if playable_order_exists(patterns@) {
                    let order = choose|order: Seq<usize>|
                        nine_lane_order(order) && order != reversed_nine() && !makes_impossible(
                            patterns@,
                            order,
                        );
                    assert(recorded(candidates@, order));
                }
            }
            if candidates.len() > 0 {
                let ghost old_notes = notes@;
                let idx = random_range(rng, 0, candidates.len());
                apply_order(notes, &candidates[idx]);
                proof {
                    let order = candidates@[idx as int]@;
                    assert(moved_by_playable_order(old_notes, notes@, mode.lanes() as int)) by {
                        assert(nine_lane_order(order));
                        assert(shuffled(old_notes, all_lanes(9), order) == notes@);
                    }
                }
                return;
            }
        }
    }
    let use_mirror: bool = random_range(rng, 0, 2) == 0;
    if use_mirror {
        mirror(notes, mode, player, false);
    }
}

} // verus!

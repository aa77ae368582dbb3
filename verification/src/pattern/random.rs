//! Random and R-Random on the named lanes: the seven keys of the first side are
//! shuffled or rotated; scratch lanes and the second side stay.

use vstd::prelude::*;

use rand::rngs::SmallRng;
use rand::seq::SliceRandom;

use crate::model::note::Lane;
use crate::pattern::rng::random_range;

verus! {

broadcast use vstd::seq_lib::group_to_multiset_ensures;

/// Random modifier: shuffles the keys of the first side.
pub struct RandomModifier;

/// R-Random modifier: rotates the keys of the first side.
pub struct RRandomModifier;

/// The named lane at a position (the first scratch for positions past the last lane).
pub open spec fn lane_at(p: int) -> Lane {
    if p == 1 {
        Lane::Key1
    } else if p == 2 {
        Lane::Key2
    } else if p == 3 {
        Lane::Key3
    } else if p == 4 {
        Lane::Key4
    } else if p == 5 {
        Lane::Key5
    } else if p == 6 {
        Lane::Key6
    } else if p == 7 {
        Lane::Key7
    } else {
        Lane::Scratch
    }
}

/// Whether `map` is an arrangement of the seven key indices 0-6.
pub open spec fn seven_key_order(map: Seq<usize>) -> bool {
    &&& map.len() == 7
    &&& map.no_duplicates()
    &&& forall|i: int| 0 <= i < 7 ==> #[trigger] map[i] < 7
}

/// A lane after the keys of the first side move by `map`: key `k` (1-7) goes to key
/// `map[k - 1] + 1`; other lanes stay.
pub open spec fn key_mapped(lane: Lane, map: Seq<usize>) -> Lane {
    if lane.first_side_key() {
        lane_at(map[lane.position() - 1] + 1)
    } else {
        lane
    }
}

/// Shuffles a list in place with rand's `SliceRandom::shuffle`.
/// Claimed: the list afterwards holds the same items, each as often as before. Not
/// claimed: which order comes out, which depends on the state of the generator.
#[verifier::external_body]
fn shuffle_in_place(v: &mut Vec<usize>, rng: &mut SmallRng)
    ensures
        final(v)@.to_multiset() == old(v)@.to_multiset(),
{
    v.shuffle(rng);
}

fn lane_of_key(k: usize) -> (r: Lane)
    requires
        1 <= k <= 7,
    ensures
        r == lane_at(k as int),
        r.position() == k,
{
    match k {
        1 => Lane::Key1,
        2 => Lane::Key2,
        3 => Lane::Key3,
        4 => Lane::Key4,
        5 => Lane::Key5,
        6 => Lane::Key6,
        _ => Lane::Key7,
    }
}

/// Moves the keys of the first side of every lane by `map`.
fn apply_key_map(lanes: &mut Vec<Lane>, map: &[usize; 7])
    requires
        seven_key_order(map@),
    ensures
        final(lanes)@.len() == old(lanes)@.len(),
        forall|i: int| 0 <= i < old(lanes)@.len() ==> #[trigger] final(lanes)@[i] == key_mapped(old(lanes)@[i], map@),
{
    let mut i: usize = 0;
    while i < lanes.len()
        invariant
            seven_key_order(map@),
            i <= lanes@.len(),
            lanes@.len() == old(lanes)@.len(),
            forall|k: int| 0 <= k < i ==> #[trigger] lanes@[k] == key_mapped(old(lanes)@[k], map@),
            forall|k: int| i <= k < lanes@.len() ==> #[trigger] lanes@[k] == old(lanes)@[k],
        decreases lanes@.len() - i,
    {
        let lane = lanes[i];
        if lane.is_key() {
            let old_index = lane.index() - 1;
            let new_index = map[old_index];
            lanes.set(i, lane_of_key(new_index + 1));
        }
        i = i + 1;
    }
}

/// Moving the keys of the first side by an arrangement of them never puts two lanes on
/// one: it is a bijection of the named lanes that keeps the scratches and the second side.
pub proof fn lemma_key_map_bijective(map: Seq<usize>)
    requires
        seven_key_order(map),
    ensures
        forall|a: Lane, b: Lane| a != b ==> #[trigger] key_mapped(a, map) != #[trigger] key_mapped(b, map),
        forall|a: Lane| a.first_side_key() <==> (#[trigger] key_mapped(a, map)).first_side_key(),
{
    assert forall|a: Lane, b: Lane| a != b implies #[trigger] key_mapped(a, map) != #[trigger] key_mapped(
        b,
        map,
    ) by {
        if a.first_side_key() && b.first_side_key() {
            assert(map[a.position() - 1] != map[b.position() - 1]);
        }
    }
}

impl RandomModifier {
    /// Random with a given arrangement: key `k` of the first side goes to key
    /// `map[k - 1] + 1`; other lanes stay.
    pub fn modify_with(&self, lanes: &mut Vec<Lane>, map: &[usize; 7])
        requires
            seven_key_order(map@),
        ensures
            final(lanes)@.len() == old(lanes)@.len(),
            forall|i: int| 0 <= i < old(lanes)@.len() ==> #[trigger] final(lanes)@[i] == key_mapped(old(lanes)@[i], map@),
    {
        apply_key_map(lanes, map);
    }

    /// Random: shuffles the seven keys of the first side, one arrangement for every lane.
    pub fn modify(&self, lanes: &mut Vec<Lane>, rng: &mut SmallRng)
        ensures
            final(lanes)@.len() == old(lanes)@.len(),
            exists|map: Seq<usize>|
                #![trigger seven_key_order(map)]
                seven_key_order(map) && forall|i: int|
                    0 <= i < old(lanes)@.len() ==> #[trigger] final(lanes)@[i] == key_mapped(old(lanes)@[i], map),
    {
        let lane_map = Self::create_shuffle_map(rng);
        self.modify_with(lanes, &lane_map);
    }

    /// An arrangement of the seven key indices, shuffled.
    fn create_shuffle_map(rng: &mut SmallRng) -> (r: [usize; 7])
        ensures
            seven_key_order(r@),
    {
        let mut indices: Vec<usize> = vec![0, 1, 2, 3, 4, 5, 6];
        let ghost orig = indices@;
        assert(orig.no_duplicates());
        shuffle_in_place(&mut indices, rng);
        proof {
            orig.lemma_multiset_has_no_duplicates();
            assert forall|x: usize| indices@.to_multiset().contains(x) implies indices@.to_multiset().count(x)
                == 1 by {}
            indices@.lemma_multiset_has_no_duplicates_conv();
            vstd::seq_lib::to_multiset_len(orig);
            vstd::seq_lib::to_multiset_len(indices@);
            assert forall|i: int| 0 <= i < 7 implies #[trigger] indices@[i] < 7 by {
                assert(indices@.contains(indices@[i]));
                assert(indices@.to_multiset().count(indices@[i]) > 0);
                assert(orig.contains(indices@[i]));
            }
        }
        let mut map = [0usize; 7];
        let mut i: usize = 0;
        while i < 7
            invariant
                i <= 7,
                indices@.len() == 7,
                map@.len() == 7,
                forall|k: int| 0 <= k < i ==> map@[k] == indices@[k],
            decreases 7 - i,
        {
            map[i] = indices[i];
            i = i + 1;
        }
        assert(map@ =~= indices@);
        map
    }
}

/// The arrangement of a rotation of the seven keys by `offset`.
pub open spec fn rotation(offset: int) -> Seq<usize> {
    Seq::new(7, |k: int| ((k + offset) % 7) as usize)
}

impl RRandomModifier {
    /// R-Random with a given offset: key `k` of the first side moves `offset` keys on,
    /// wrapping around; other lanes stay.
    pub fn modify_with(&self, lanes: &mut Vec<Lane>, offset: usize)
        requires
            1 <= offset <= 6,
        ensures
            final(lanes)@.len() == old(lanes)@.len(),
            seven_key_order(rotation(offset as int)),
            forall|i: int|
                0 <= i < old(lanes)@.len() ==> #[trigger] final(lanes)@[i] == key_mapped(
                    old(lanes)@[i],
                    rotation(offset as int),
                ),
    {
        let mut map = [0usize; 7];
        let mut k: usize = 0;
        while k < 7
            invariant
                1 <= offset <= 6,
                k <= 7,
                map@.len() == 7,
                forall|j: int| 0 <= j < k ==> map@[j] == rotation(offset as int)[j],
            decreases 7 - k,
        {
            map[k] = (k + offset) % 7;
            k = k + 1;
        }
        assert(map@ =~= rotation(offset as int));
        proof {
            let r = rotation(offset as int);
            assert forall|a: int, b: int| 0 <= a < 7 && 0 <= b < 7 && a != b implies r[a] != r[b] by {}
        }
        apply_key_map(lanes, &map);
    }

    /// R-Random: rotates the seven keys of the first side by an offset drawn from 1-6.
    pub fn modify(&self, lanes: &mut Vec<Lane>, rng: &mut SmallRng)
        ensures
            final(lanes)@.len() == old(lanes)@.len(),
            exists|offset: int|
                #![trigger rotation(offset)]
                1 <= offset <= 6 && forall|i: int|
                    0 <= i < old(lanes)@.len() ==> #[trigger] final(lanes)@[i] == key_mapped(
                        old(lanes)@[i],
                        rotation(offset),
                    ),
    {
        let offset = random_range(rng, 1, 7);
        self.modify_with(lanes, offset);
    }
}

} // verus!

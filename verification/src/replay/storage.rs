use vstd::prelude::*;

use super::codec::{gunzip, gunzipped, gzip, gzip_compressed};
use super::replay_data::{ReplayData, ReplayDataError};

verus! {

/// The bytes of a replay file: the gzip stream of the replay's JSON text.
pub fn pack_replay(json: &[u8]) -> (r: Vec<u8>)
    ensures
        r@ == gzip_compressed(json@),
        gunzipped(r@) == Some(json@),
{
    match gzip(json) {
        Ok(v) => v,
        Err(_) => Vec::new(),
    }
}

/// The JSON text held in the bytes of a replay file; an error when they are no gzip
/// stream that reads to its end.
pub fn unpack_replay(data: &[u8]) -> (r: Result<Vec<u8>, ReplayDataError>)
    ensures
        match r {
            Ok(v) => gunzipped(data@) == Some(v@),
            Err(e) => gunzipped(data@) is None && e is Gzip,
        },
{
    match gunzip(data) {
        Ok(v) => Ok(v),
        Err(_) => Err(ReplayDataError::Gzip),
    }
}

/// Replay slot (0-3).
#[derive(Debug, Clone, Copy, PartialEq, Eq, Structural)]
pub struct ReplaySlot(pub u8);

impl ReplaySlot {
    /// All available slots, in order.
    pub fn all() -> (r: [ReplaySlot; 4])
        ensures
            r@ == seq![ReplaySlot(0), ReplaySlot(1), ReplaySlot(2), ReplaySlot(3)],
    {
        [ReplaySlot(0), ReplaySlot(1), ReplaySlot(2), ReplaySlot(3)]
    }
}

/// The decimal digit character of a number below 10.
pub open spec fn digit_char(d: int) -> char {
    (48 + d) as char
}

/// Decimal text of a byte, without leading zeros.
pub open spec fn decimal(n: u8) -> Seq<char> {
    if n < 10 {
        seq![digit_char(n as int)]
    } else if n < 100 {
        seq![digit_char(n as int / 10), digit_char(n as int % 10)]
    } else {
        seq![digit_char(n as int / 100), digit_char((n as int / 10) % 10), digit_char(n as int % 10)]
    }
}

/// File name of a replay: `<sha256>.json.gz` for slot 0 and `<sha256>_<slot>.json.gz`
/// for the others.
pub open spec fn replay_file_name_of(sha256: Seq<char>, slot: ReplaySlot) -> Seq<char> {
    if slot.0 == 0 {
        sha256 + seq!['.', 'j', 's', 'o', 'n', '.', 'g', 'z']
    } else {
        sha256 + seq!['_'] + decimal(slot.0) + seq!['.', 'j', 's', 'o', 'n', '.', 'g', 'z']
    }
}

fn digit_str(d: u8) -> (r: &'static str)
    requires
        d < 10,
    ensures
        r@ == seq![digit_char(d as int)],
{
    proof {
        reveal_strlit("0");
        reveal_strlit("1");
        reveal_strlit("2");
        reveal_strlit("3");
        reveal_strlit("4");
        reveal_strlit("5");
        reveal_strlit("6");
        reveal_strlit("7");
        reveal_strlit("8");
        reveal_strlit("9");
    }
    match d {
        0 => "0",
        1 => "1",
        2 => "2",
        3 => "3",
        4 => "4",
        5 => "5",
        6 => "6",
        7 => "7",
        8 => "8",
        _ => "9",
    }
}

/// File name of the replay of a chart in a slot.
pub fn replay_file_name(sha256: &str, slot: ReplaySlot) -> (r: String)
    ensures
        r@ == replay_file_name_of(sha256@, slot),
{
    let mut name = String::from_str(sha256);
    let n = slot.0;
    if n != 0 {
        proof {
            reveal_strlit("_");
        }
        name.append("_");
        if n >= 100 {
            name.append(digit_str(n / 100));
        }
        if n >= 10 {
            name.append(digit_str((n / 10) % 10));
        }
        name.append(digit_str(n % 10));
    }
    proof {
        reveal_strlit(".json.gz");
    }
    name.append(".json.gz");
    assert(name@ =~= replay_file_name_of(sha256@, slot));
    name
}

/// The next available slot of a chart: the first slot, in order, for which no replay
/// file exists (given whether each slot's file exists).
pub fn find_empty_slot(exists: &[bool; 4]) -> (r: Option<ReplaySlot>)
    ensures
        match r {
            Some(s) => s.0 < 4 && !exists@[s.0 as int] && forall|k: int| 0 <= k < s.0 ==> exists@[k],
            None => forall|k: int| 0 <= k < 4 ==> exists@[k],
        },
{
    let mut i: usize = 0;
    while i < 4
        invariant
            i <= 4,
            forall|k: int| 0 <= k < i ==> exists@[k],
        decreases 4 - i,
    {
        if !exists[i] {
            return Some(ReplaySlot(i as u8));
        }
        i = i + 1;
    }
    None
}

/// The replays found, each with its slot: entry `k` of a list holds what was found in
/// slot `k`.
pub open spec fn found_replays(found: Seq<Option<ReplayData>>) -> Seq<(ReplaySlot, ReplayData)>
    decreases found.len(),
{
    if found.len() == 0 {
        Seq::empty()
    } else {
        let rest = found_replays(found.drop_last());
        match found.last() {
            Some(d) => rest.push((ReplaySlot((found.len() - 1) as u8), d)),
            None => rest,
        }
    }
}

/// The available replays of a chart, with their slots, in slot order, from what was
/// found in each slot (entry `k` for slot `k`).
pub fn list_replays(found: Vec<Option<ReplayData>>) -> (r: Vec<(ReplaySlot, ReplayData)>)
    requires
        found@.len() <= 4,
    ensures
        r@ == found_replays(found@),
{
    let ghost all = found@;
    let mut rest = found;
    let mut r: Vec<(ReplaySlot, ReplayData)> = Vec::new();
    let mut slot: u8 = 0;
    assert(all.take(0) =~= Seq::<Option<ReplayData>>::empty());
    while rest.len() > 0
        invariant
            slot <= all.len() <= 4,
            rest@ == all.skip(slot as int),
            r@ == found_replays(all.take(slot as int)),
        decreases rest@.len(),
    {
        let item = rest.remove(0);
        assert(all.take(slot + 1).drop_last() =~= all.take(slot as int));
        assert(all.take(slot + 1).last() == item);
        match item {
            Some(d) => {
                r.push((ReplaySlot(slot), d));
            },
            None => {},
        }
        assert(rest@ =~= all.skip(slot + 1));
        slot = slot + 1;
    }
    assert(all.take(all.len() as int) =~= all);
    r
}

} // verus!

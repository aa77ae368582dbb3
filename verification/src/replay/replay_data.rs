use vstd::prelude::*;

use super::codec::{
    base64_decode, base64_decoded, base64_encode, base64_url, gunzip, gunzipped, gzip, gzip_compressed,
};
use super::key_event::KeyEvent;

verus! {

/// Replay data of a play session (key log stored compressed as base64 of gzip).
#[derive(Debug, Clone)]
pub struct ReplayData {
    /// Player name.
    pub player: String,
    /// Chart SHA-256 hash.
    pub sha256: String,
    /// Play mode (lane count).
    pub mode: u32,
    /// Compressed key input log (base64 + gzip).
    pub keyinput: Option<String>,
    /// Gauge type index.
    pub gauge: usize,
    /// Random option for 1P.
    pub randomoption: i32,
    /// Random option seed for 1P.
    pub randomoptionseed: i64,
    /// Random option for 2P.
    pub randomoption2: i32,
    /// Random option seed for 2P.
    pub randomoption2seed: i64,
    /// Double option.
    pub doubleoption: i32,
    /// Play date (unix timestamp).
    pub date: i64,
    /// Expanded key log.
    pub keylog: Vec<KeyEvent>,
}

/// Why a key log could not be compressed or expanded.
#[derive(Debug, Clone, Copy, PartialEq, Eq, Structural)]
pub enum ReplayDataError {
    /// The gzip stream could not be written or read.
    Gzip,
    /// The key input is not valid base64.
    Base64,
    /// The expanded key input holds a record with key code 0.
    InvalidKeyinput,
}

impl Default for ReplayData {
    fn default() -> (r: Self)
        ensures
            r.player@ == Seq::<char>::empty(),
            r.sha256@ == Seq::<char>::empty(),
            r.mode == 0,
            r.keyinput is None,
            r.gauge == 0,
            r.randomoption == 0,
            r.randomoptionseed == -1,
            r.randomoption2 == 0,
            r.randomoption2seed == -1,
            r.doubleoption == 0,
            r.date == 0,
            r.keylog@ == Seq::<KeyEvent>::empty(),
    {
        ReplayData {
            player: String::new(),
            sha256: String::new(),
            mode: 0,
            keyinput: None,
            gauge: 0,
            randomoption: 0,
            randomoptionseed: -1,
            randomoption2: 0,
            randomoption2seed: -1,
            doubleoption: 0,
            date: 0,
            keylog: Vec::new(),
        }
    }
}

/// The key code of an event: key + 1 (as a 16-bit integer), negated for a release.
pub open spec fn key_code(e: KeyEvent) -> int {
    let k = (e.key as i16) as int + 1;
    if e.pressed {
        k
    } else {
        -k
    }
}

/// Whether an event can be encoded (its key code fits in 16 bits).
pub open spec fn encodable(e: KeyEvent) -> bool {
    (e.key as i16) != i16::MAX
}

/// Byte `k` (little endian) of a 64-bit pattern.
pub open spec fn byte_of(u: u64, k: u64) -> u8 {
    ((u >> (8 * k)) & 0xff) as u8
}

/// The ten bytes of an event: its key code (16 bits) and its time (64 bits), little
/// endian.
pub open spec fn encode_event(e: KeyEvent) -> Seq<u8> {
    let c = (key_code(e) as i16) as u16 as u64;
    let t = e.time_us as u64;
    seq![
        byte_of(c, 0),
        byte_of(c, 1),
        byte_of(t, 0),
        byte_of(t, 1),
        byte_of(t, 2),
        byte_of(t, 3),
        byte_of(t, 4),
        byte_of(t, 5),
        byte_of(t, 6),
        byte_of(t, 7),
    ]
}

/// The raw key log: the ten bytes of each event in order.
pub open spec fn encode_events(events: Seq<KeyEvent>) -> Seq<u8>
    decreases events.len(),
{
    if events.len() == 0 {
        Seq::empty()
    } else {
        encode_events(events.drop_last()) + encode_event(events.last())
    }
}

/// The 16-bit key code of the record at byte `pos`.
pub open spec fn record_code(raw: Seq<u8>, pos: int) -> i16 {
    ((raw[pos] as u16) | ((raw[pos + 1] as u16) << 8u16)) as i16
}

/// The time of the record at byte `pos`.
pub open spec fn record_time(raw: Seq<u8>, pos: int) -> i64 {
    ((raw[pos + 2] as u64) | ((raw[pos + 3] as u64) << 8u64) | ((raw[pos + 4] as u64) << 16u64) | ((
    raw[pos + 5] as u64) << 24u64) | ((raw[pos + 6] as u64) << 32u64) | ((raw[pos + 7] as u64)
        << 40u64) | ((raw[pos + 8] as u64) << 48u64) | ((raw[pos + 9] as u64) << 56u64)) as i64
}

/// The event of the record at byte `pos`: key |code| - 1, pressed when the code is not
/// negative.
pub open spec fn decode_record(raw: Seq<u8>, pos: int) -> KeyEvent {
    let code = record_code(raw, pos) as int;
    let mag = if code < 0 {
        -code
    } else {
        code
    };
    KeyEvent { key: (mag - 1) as usize, pressed: code >= 0, time_us: record_time(raw, pos) }
}

/// The events of the first `n` records of a raw key log.
pub open spec fn decode_records(raw: Seq<u8>, n: int) -> Seq<KeyEvent>
    decreases n,
{
    if n <= 0 {
        Seq::empty()
    } else {
        decode_records(raw, n - 1).push(decode_record(raw, 10 * (n - 1)))
    }
}

/// The events of a raw key log (trailing bytes short of a record are ignored).
pub open spec fn decode_events(raw: Seq<u8>) -> Seq<KeyEvent> {
    decode_records(raw, raw.len() as int / 10)
}

/// Whether every whole record of a raw key log has a non-zero key code.
pub open spec fn records_valid(raw: Seq<u8>) -> bool {
    forall|n: int| 0 <= n < raw.len() / 10 ==> #[trigger] record_code(raw, 10 * n) != 0
}

/// The compressed key input of a key log.
pub open spec fn keyinput_of(events: Seq<KeyEvent>) -> Seq<char> {
    base64_url(gzip_compressed(encode_events(events)))
}

fn encode_event_bytes(e: KeyEvent, out: &mut Vec<u8>)
    requires
        encodable(e),
    ensures
        final(out)@ == old(out)@ + encode_event(e),
{
    let k: i16 = e.key as i16 + 1;
    let code: i16 = if e.pressed {
        k
    } else {
        -k
    };
    let c = code as u16 as u64;
    let t = e.time_us as u64;
    out.push((c & 0xff) as u8);
    out.push(((c >> 8u64) & 0xff) as u8);
    out.push((t & 0xff) as u8);
    out.push(((t >> 8u64) & 0xff) as u8);
    out.push(((t >> 16u64) & 0xff) as u8);
    out.push(((t >> 24u64) & 0xff) as u8);
    out.push(((t >> 32u64) & 0xff) as u8);
    out.push(((t >> 40u64) & 0xff) as u8);
    out.push(((t >> 48u64) & 0xff) as u8);
    out.push(((t >> 56u64) & 0xff) as u8);
    assert(c >> 0u64 == c) by (bit_vector);
    assert(t >> 0u64 == t) by (bit_vector);
    assert(final(out)@ =~= old(out)@ + encode_event(e));
}

/// Encode a key log into its raw bytes.
pub fn encode_keylog(events: &[KeyEvent]) -> (r: Vec<u8>)
    requires
        forall|i: int| 0 <= i < events@.len() ==> encodable(#[trigger] events@[i]),
    ensures
        r@ == encode_events(events@),
{
    let mut raw: Vec<u8> = Vec::new();
    let mut i: usize = 0;
    while i < events.len()
        invariant
            i <= events@.len(),
            forall|k: int| 0 <= k < events@.len() ==> encodable(#[trigger] events@[k]),
            raw@ == encode_events(events@.take(i as int)),
        decreases events@.len() - i,
    {
        assert(events@.take(i + 1).drop_last() =~= events@.take(i as int));
        encode_event_bytes(events[i], &mut raw);
        i = i + 1;
    }
    assert(events@.take(events@.len() as int) =~= events@);
    raw
}

/// Whether every whole record has a non-zero key code.
fn check_records(raw: &[u8]) -> (r: bool)
    ensures
        r == records_valid(raw@),
{
    let len = raw.len();
    let n = len / 10;
    let mut i: usize = 0;
    while i < n
        invariant
            len == raw@.len(),
            n == len / 10,
            i <= n,
            forall|m: int| 0 <= m < i ==> #[trigger] record_code(raw@, 10 * m) != 0,
        decreases n - i,
    {
        assert(10 * i + 10 <= raw@.len()) by (nonlinear_arith)
            requires
                i < n,
                len == raw@.len(),
            n == len / 10,
        ;
        let pos = 10 * i;
        let code = ((raw[pos] as u16) | ((raw[pos + 1] as u16) << 8u16)) as i16;
        if code == 0 {
            assert(record_code(raw@, 10 * i) == 0);
            return false;
        }
        i = i + 1;
    }
    true
}

/// Decode a raw key log whose records all have a non-zero key code.
pub fn decode_keylog(raw: &[u8]) -> (r: Vec<KeyEvent>)
    requires
        records_valid(raw@),
    ensures
        r@ == decode_events(raw@),
{
    let len = raw.len();
    let n = len / 10;
    let mut out: Vec<KeyEvent> = Vec::new();
    let mut i: usize = 0;
    while i < n
        invariant
            len == raw@.len(),
            n == len / 10,
            i <= n,
            records_valid(raw@),
            out@ == decode_records(raw@, i as int),
        decreases n - i,
    {
        assert(10 * i + 10 <= raw@.len()) by (nonlinear_arith)
            requires
                i < n,
                len == raw@.len(),
            n == len / 10,
        ;
        let pos = 10 * i;
        let code = ((raw[pos] as u16) | ((raw[pos + 1] as u16) << 8u16)) as i16;
        assert(code == record_code(raw@, 10 * i));
        let time = ((raw[pos + 2] as u64) | ((raw[pos + 3] as u64) << 8u64) | ((raw[pos + 4] as u64)
            << 16u64) | ((raw[pos + 5] as u64) << 24u64) | ((raw[pos + 6] as u64) << 32u64) | ((raw[pos
            + 7] as u64) << 40u64) | ((raw[pos + 8] as u64) << 48u64) | ((raw[pos + 9] as u64)
            << 56u64)) as i64;
        let mag: u16 = if code < 0 {
            (-(code as i32)) as u16
        } else {
            code as u16
        };
        let key = (mag - 1) as usize;
        out.push(KeyEvent { key, pressed: code >= 0, time_us: time });
        i = i + 1;
    }
    out
}

proof fn lemma_u64_bytes(t: u64)
    ensures
        (byte_of(t, 0) as u64 | ((byte_of(t, 1) as u64) << 8u64) | ((byte_of(t, 2) as u64) << 16u64) | ((
        byte_of(t, 3) as u64) << 24u64) | ((byte_of(t, 4) as u64) << 32u64) | ((byte_of(t, 5) as u64)
            << 40u64) | ((byte_of(t, 6) as u64) << 48u64) | ((byte_of(t, 7) as u64) << 56u64)) == t,
{
    assert((((t >> 0u64) & 0xff) as u8 as u64 | ((((t >> 8u64) & 0xff) as u8 as u64) << 8u64) | ((((t
        >> 16u64) & 0xff) as u8 as u64) << 16u64) | ((((t >> 24u64) & 0xff) as u8 as u64) << 24u64) | ((((t
        >> 32u64) & 0xff) as u8 as u64) << 32u64) | ((((t >> 40u64) & 0xff) as u8 as u64) << 40u64) | ((((t
        >> 48u64) & 0xff) as u8 as u64) << 48u64) | ((((t >> 56u64) & 0xff) as u8 as u64) << 56u64)) == t)
        by (bit_vector);
}

proof fn lemma_u16_bytes(c: u16)
    ensures
        ((byte_of(c as u64, 0) as u16) | ((byte_of(c as u64, 1) as u16) << 8u16)) == c,
{
    assert((((((c as u64) >> 0u64) & 0xff) as u8 as u16) | (((((c as u64) >> 8u64) & 0xff) as u8 as u16)
        << 8u16)) == c) by (bit_vector);
}

proof fn lemma_event_roundtrip(e: KeyEvent, prefix: Seq<u8>)
    requires
        e.key <= 32766,
        prefix.len() % 10 == 0,
    ensures
        decode_record(prefix + encode_event(e), prefix.len() as int) == e,
        record_code(prefix + encode_event(e), prefix.len() as int) != 0,
{
    let raw = prefix + encode_event(e);
    let p = prefix.len() as int;
    let enc = encode_event(e);
    assert(raw[p] == enc[0] && raw[p + 1] == enc[1]);
    assert(raw[p + 2] == enc[2] && raw[p + 3] == enc[3] && raw[p + 4] == enc[4] && raw[p + 5] == enc[5] && raw[p + 6] == enc[6] && raw[p + 7] == enc[7] && raw[p + 8] == enc[8] && raw[p + 9] == enc[9]);
    let x = key_code(e) as i16;
    let c = x as u16;
    lemma_u16_bytes(c);
    let t = e.time_us;
    lemma_u64_bytes(t as u64);
    assert((c as i16) == x) by (bit_vector)
        requires
            c == x as u16,
    ;
    assert(((t as u64) as i64) == t) by (bit_vector);
    assert(enc[0] == byte_of(c as u64, 0) && enc[1] == byte_of(c as u64, 1));
    assert(record_code(raw, p) == x);
    assert(record_time(raw, p) == t);
}

proof fn lemma_decode_prefix(raw: Seq<u8>, extra: Seq<u8>, n: int)
    requires
        0 <= n,
        10 * n <= raw.len(),
    ensures
        decode_records(raw + extra, n) == decode_records(raw, n),
    decreases n,
{
    if n > 0 {
        lemma_decode_prefix(raw, extra, n - 1);
        let p = 10 * (n - 1);
        let all = raw + extra;
        assert(all[p + 0] == raw[p + 0] && all[p + 1] == raw[p + 1] && all[p + 2] == raw[p + 2] && all[p + 3] == raw[p + 3] && all[p + 4] == raw[p + 4] && all[p + 5] == raw[p + 5] && all[p + 6] == raw[p + 6] && all[p + 7] == raw[p + 7] && all[p + 8] == raw[p + 8] && all[p + 9] == raw[p + 9]);
        assert(record_code(all, p) == record_code(raw, p));
        assert(record_time(all, p) == record_time(raw, p));
    }
}

proof fn lemma_encode_len(events: Seq<KeyEvent>)
    ensures
        encode_events(events).len() == 10 * events.len(),
    decreases events.len(),
{
    if events.len() > 0 {
        lemma_encode_len(events.drop_last());
    }
}

/// Decoding the raw bytes of a key log gives the key log back, and every record of it
/// has a non-zero key code, for keys that fit in a 16-bit key code (below 32767).
pub proof fn lemma_keylog_roundtrip(events: Seq<KeyEvent>)
    requires
        forall|i: int| 0 <= i < events.len() ==> #[trigger] events[i].key <= 32766,
    ensures
        records_valid(encode_events(events)),
        decode_events(encode_events(events)) == events,
    decreases events.len(),
{
    lemma_encode_len(events);
    if events.len() > 0 {
        let prev = events.drop_last();
        let e = events.last();
        assert(forall|i: int| 0 <= i < prev.len() ==> prev[i] == events[i]);
        lemma_keylog_roundtrip(prev);
        lemma_encode_len(prev);
        let raw0 = encode_events(prev);
        let raw = encode_events(events);
        assert(raw == raw0 + encode_event(e));
        let n = events.len() as int;
        assert(raw.len() / 10 == n);
        assert(raw0.len() / 10 == n - 1);
        lemma_decode_prefix(raw0, encode_event(e), n - 1);
        lemma_event_roundtrip(e, raw0);
        assert(decode_records(raw, n) == decode_records(raw0, n - 1).push(decode_record(raw, 10 * (n - 1))));
        assert(decode_events(raw) =~= events);
        assert forall|m: int| 0 <= m < raw.len() / 10 implies #[trigger] record_code(raw, 10 * m) != 0 by {
            if m < n - 1 {
                assert(raw[10 * m + 0] == raw0[10 * m + 0] && raw[10 * m + 1] == raw0[10 * m + 1] && raw[10 * m + 2] == raw0[10 * m + 2] && raw[10 * m + 3] == raw0[10 * m + 3] && raw[10 * m + 4] == raw0[10 * m + 4] && raw[10 * m + 5] == raw0[10 * m + 5] && raw[10 * m + 6] == raw0[10 * m + 6] && raw[10 * m + 7] == raw0[10 * m + 7] && raw[10 * m + 8] == raw0[10 * m + 8] && raw[10 * m + 9] == raw0[10 * m + 9]);
                assert(record_code(raw, 10 * m) == record_code(raw0, 10 * m));
            }
        }
    } else {
        assert(decode_events(encode_events(events)) =~= events);
    }
}

/// What expanding a non-empty key input gives: the key log, or the error.
pub open spec fn expand_outcome(text: Seq<char>) -> Result<Seq<KeyEvent>, ReplayDataError> {
    match base64_decoded(text) {
        None => Err(ReplayDataError::Base64),
        Some(c) => match gunzipped(c) {
            None => Err(ReplayDataError::Gzip),
            Some(raw) => if records_valid(raw) {
                Ok(decode_events(raw))
            } else {
                Err(ReplayDataError::InvalidKeyinput)
            },
        },
    }
}

/// Expanding the key input that shrinking a key log stored gives that key log back
/// (keys below 32767, which fit the 16-bit key code).
pub proof fn lemma_shrink_expand_roundtrip(events: Seq<KeyEvent>)
    requires
        forall|i: int| 0 <= i < events.len() ==> #[trigger] events[i].key <= 32766,
        base64_decoded(keyinput_of(events)) == Some(gzip_compressed(encode_events(events))),
        gunzipped(gzip_compressed(encode_events(events))) == Some(encode_events(events)),
    ensures
        expand_outcome(keyinput_of(events)) == Ok::<Seq<KeyEvent>, ReplayDataError>(events),
{
    lemma_keylog_roundtrip(events);
}

impl ReplayData {
    /// Compress the key log into the key input (base64 of the gzip of its raw bytes)
    /// and clear the key log; nothing changes when the key log is empty.
    pub fn shrink(&mut self) -> (r: Result<(), ReplayDataError>)
        requires
            forall|i: int| 0 <= i < old(self).keylog@.len() ==> encodable(#[trigger] old(self).keylog@[i]),
        ensures
            r is Ok,
            old(self).keylog@.len() == 0 ==> *final(self) == *old(self),
            old(self).keylog@.len() > 0 ==> match r {
                Ok(_) => {
                    &&& final(self).keyinput matches Some(s) && s@ == keyinput_of(old(self).keylog@)
                        && base64_decoded(s@) == Some(gzip_compressed(encode_events(old(self).keylog@)))
                    &&& keyinput_of(old(self).keylog@).len() > 0
                    &&& gunzipped(gzip_compressed(encode_events(old(self).keylog@))) == Some(
                        encode_events(old(self).keylog@),
                    )
                    &&& final(self).keylog@.len() == 0
                },
                Err(e) => e is Gzip && *final(self) == *old(self),
            },
            final(self).player == old(self).player,
            final(self).sha256 == old(self).sha256,
            final(self).mode == old(self).mode,
            final(self).gauge == old(self).gauge,
            final(self).randomoption == old(self).randomoption,
            final(self).randomoptionseed == old(self).randomoptionseed,
            final(self).randomoption2 == old(self).randomoption2,
            final(self).randomoption2seed == old(self).randomoption2seed,
            final(self).doubleoption == old(self).doubleoption,
            final(self).date == old(self).date,
    {
        if self.keylog.len() == 0 {
            return Ok(());
        }
        let raw = encode_keylog(self.keylog.as_slice());
        let compressed = match gzip(raw.as_slice()) {
            Ok(c) => c,
            Err(_) => {
                return Err(ReplayDataError::Gzip);
            },
        };
        self.keyinput = Some(base64_encode(compressed.as_slice()));
        self.keylog.clear();
        Ok(())
    }

    /// Expand the key input back into the key log and clear the key input; nothing
    /// changes when there is no key input or it is empty.
    pub fn expand(&mut self) -> (r: Result<(), ReplayDataError>)
        ensures
            match old(self).keyinput {
                Some(s) if s@.len() > 0 => match base64_decoded(s@) {
                    None => r == Err::<(), ReplayDataError>(ReplayDataError::Base64) && *final(self)
                        == *old(self),
                    Some(c) => match gunzipped(c) {
                        None => r == Err::<(), ReplayDataError>(ReplayDataError::Gzip) && *final(self)
                            == *old(self),
                        Some(raw) => if records_valid(raw) {
                            &&& r is Ok
                            &&& final(self).keylog@ == decode_events(raw)
                            &&& final(self).keyinput is None
                        } else {
                            &&& r == Err::<(), ReplayDataError>(ReplayDataError::InvalidKeyinput)
                            &&& *final(self) == *old(self)
                        },
                    },
                },
                _ => r is Ok && *final(self) == *old(self),
            },
            old(self).keyinput matches Some(s) ==> (s@.len() > 0 ==> match expand_outcome(s@) {
                Ok(ev) => r is Ok && final(self).keylog@ == ev && final(self).keyinput is None,
                Err(e) => r == Err::<(), ReplayDataError>(e) && *final(self) == *old(self),
            }),
            final(self).player == old(self).player,
            final(self).sha256 == old(self).sha256,
            final(self).mode == old(self).mode,
            final(self).gauge == old(self).gauge,
            final(self).randomoption == old(self).randomoption,
            final(self).randomoptionseed == old(self).randomoptionseed,
            final(self).randomoption2 == old(self).randomoption2,
            final(self).randomoption2seed == old(self).randomoption2seed,
            final(self).doubleoption == old(self).doubleoption,
            final(self).date == old(self).date,
    {
        let compressed = match &self.keyinput {
            Some(s) => {
                if s.as_str().unicode_len() == 0 {
                    return Ok(());
                }
                match base64_decode(s.as_str()) {
                    Ok(c) => c,
                    Err(_) => {
                        return Err(ReplayDataError::Base64);
                    },
                }
            },
            None => {
                return Ok(());
            },
        };
        let raw = match gunzip(compressed.as_slice()) {
            Ok(r) => r,
            Err(_) => {
                return Err(ReplayDataError::Gzip);
            },
        };
        if !check_records(raw.as_slice()) {
            return Err(ReplayDataError::InvalidKeyinput);
        }
        self.keylog = decode_keylog(raw.as_slice());
        self.keyinput = None;
        Ok(())
    }
}

} // verus!

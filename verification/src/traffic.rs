//! Selective traffic per connection: what a receiver is asked to send.
//!
//! A client sends nothing until asked. The server asks for every aircraft a
//! receiver offers and can cap how many ADS-B aircraft it keeps receiving
//! sync pairs for. Mode-S-only aircraft (the multilateration targets) are
//! never capped.

use vstd::prelude::*;
use vstd::utf8::*;
use crate::clock::within;
use crate::frames::frame_bytes;
#[allow(unused_imports)]
use crate::frames::hex_bytes;
use crate::rows::Newer;
use crate::table::Table;
#[allow(unused_imports)]
use crate::rows::kept;

verus! {

/// An ADS-B aircraft leaves a receiver's sync set after this long without
/// a sync pair from it: 30 s.
pub const SYNC_IDLE_NS: i64 = 30_000_000_000;

/// A stopped aircraft may be requested again after this long, and only when
/// the sync set has room: 60 s.
pub const SUPPRESS_NS: i64 = 60_000_000_000;

/// What a connection has been asked to send.
pub struct Traffic {
    cap: usize,
    requested: Table<String, ()>,
    sync: Table<String, i64>,
    suppressed: Table<String, i64>,
}

/// The model of [`Traffic`].
#[verifier::ext_equal]
pub struct TrafficView {
    /// ADS-B aircraft kept at most; 0 is unlimited.
    pub cap: nat,
    /// Aircraft the client has been told to send.
    pub requested: Set<Seq<char>>,
    /// ADS-B aircraft whose sync pairs are kept, with the last sync time.
    pub sync: Map<Seq<char>, i64>,
    /// ADS-B aircraft the client was told to stop, with the time of that.
    pub suppressed: Map<Seq<char>, i64>,
}

impl TrafficView {
    /// The sync set without the aircraft that have gone quiet by `now`.
    pub open spec fn fresh(self, now: i64) -> Map<Seq<char>, i64> {
        kept(self.sync, |k: Seq<char>, t: i64| now - t < SYNC_IDLE_NS)
    }

    /// The sync set can take one more aircraft at `now`.
    pub open spec fn room(self, now: i64) -> bool {
        self.cap == 0 || self.fresh(now).len() < self.cap
    }

    /// The quiet aircraft have left a limited sync set.
    pub open spec fn pruned(self, now: i64) -> TrafficView {
        if self.cap == 0 {
            self
        } else {
            TrafficView { sync: self.fresh(now), ..self }
        }
    }

    /// `icao` was stopped and may not be asked for yet.
    pub open spec fn held_back(self, icao: Seq<char>, now: i64) -> bool {
        self.suppressed.contains_key(icao) && (now - self.suppressed[icao] < SUPPRESS_NS
            || !self.room(now))
    }

    /// What an offer of `icao` leaves behind.
    pub open spec fn after_offer(self, icao: Seq<char>, now: i64) -> TrafficView {
        if !self.suppressed.contains_key(icao) {
            TrafficView { requested: self.requested.insert(icao), ..self }
        } else if now - self.suppressed[icao] < SUPPRESS_NS {
            self
        } else if !self.room(now) {
            self.pruned(now)
        } else {
            TrafficView {
                requested: self.requested.insert(icao),
                suppressed: self.suppressed.remove(icao),
                ..self.pruned(now)
            }
        }
    }

    /// Sync pairs of `icao` are forwarded at `now`.
    pub open spec fn forwards(self, icao: Seq<char>, now: i64) -> bool {
        self.cap == 0 || self.sync.contains_key(icao) || self.room(now)
    }

    /// What a sync pair of `icao` leaves behind.
    pub open spec fn after_sync(self, icao: Seq<char>, now: i64) -> TrafficView {
        if self.cap == 0 {
            self
        } else if self.sync.contains_key(icao) {
            TrafficView { sync: self.sync.insert(icao, now), ..self }
        } else if self.room(now) {
            TrafficView { sync: self.fresh(now).insert(icao, now), ..self }
        } else {
            TrafficView {
                requested: self.requested.remove(icao),
                suppressed: self.suppressed.insert(icao, now),
                ..self.pruned(now)
            }
        }
    }

    /// What the loss of `icao` leaves behind.
    pub open spec fn after_loss(self, icao: Seq<char>) -> TrafficView {
        TrafficView { requested: self.requested.remove(icao), sync: self.sync.remove(icao), ..self }
    }

    /// A limited sync set never outgrows its cap, and no aircraft is both
    /// stopped and requested.
    pub open spec fn orderly(self) -> bool {
        &&& self.sync.dom().finite()
        &&& self.cap > 0 ==> self.sync.len() <= self.cap
        &&& forall|icao: Seq<char>|
            self.suppressed.contains_key(icao) ==> !(#[trigger] self.requested.contains(icao))
    }
}

impl View for Traffic {
    type V = TrafficView;

    closed spec fn view(&self) -> TrafficView {
        TrafficView {
            cap: self.cap as nat,
            requested: self.requested@.dom(),
            sync: self.sync@,
            suppressed: self.suppressed@,
        }
    }
}

impl Traffic {
    /// `cap` 0 is unlimited.
    pub fn new(cap: usize) -> (r: Self)
        ensures
            r@ == (TrafficView {
                cap: cap as nat,
                requested: Set::empty(),
                sync: Map::empty(),
                suppressed: Map::empty(),
            }),
            r@.orderly(),
    {
        Traffic { cap, requested: Table::new(), sync: Table::new(), suppressed: Table::new() }
    }

    fn has_room(&mut self, now: i64) -> (r: bool)
        ensures
            r == old(self)@.room(now),
            final(self)@ == old(self)@.pruned(now),
    {
        if self.cap == 0 {
            return true;
        }
        self.sync.retain(&Newer { now, limit: SYNC_IDLE_NS });
        assert(self.sync@ =~= old(self)@.fresh(now));
        self.sync.len() < self.cap
    }

    /// The client offers an aircraft (seen list or rate report). True when
    /// it should be started now; false if it already is, or if it was
    /// stopped for the cap and there is no room yet.
    pub fn offered(&mut self, icao: &str, now: i64) -> (r: bool)
        ensures
            r == (!old(self)@.held_back(icao@, now) && !old(self)@.requested.contains(icao@)),
            final(self)@ == old(self)@.after_offer(icao@, now),
    {
        let name = icao.to_owned();
        let since: Option<i64> = match self.suppressed.get(&name) {
            Some(t) => Some(*t),
            None => None,
        };
        if let Some(t) = since {
            if within(now, t, SUPPRESS_NS) {
                return false;
            }
            if !self.has_room(now) {
                return false;
            }
            let _ = self.suppressed.take(&name);
        }
        let known: bool = self.requested.contains(&name);
        self.requested.insert(name, ());
        assert(self@ =~= old(self)@.after_offer(icao@, now));
        !known
    }

    /// A sync pair arrived for an ADS-B aircraft. True when it should be
    /// forwarded; false when the cap is full and the client should be told
    /// to stop sending this aircraft.
    pub fn on_sync(&mut self, icao: &str, now: i64) -> (r: bool)
        ensures
            r == old(self)@.forwards(icao@, now),
            final(self)@ == old(self)@.after_sync(icao@, now),
    {
        if self.cap == 0 {
            return true;
        }
        let name = icao.to_owned();
        if self.sync.contains(&name) {
            self.sync.insert(name, now);
            return true;
        }
        if self.has_room(now) {
            self.sync.insert(name, now);
            return true;
        }
        let _ = self.requested.take(&name);
        self.suppressed.insert(name, now);
        assert(self@ =~= old(self)@.after_sync(icao@, now));
        false
    }

    /// The client reports an aircraft gone.
    pub fn lost(&mut self, icao: &str)
        ensures
            final(self)@ == old(self)@.after_loss(icao@),
    {
        let name = icao.to_owned();
        let _ = self.requested.take(&name);
        let _ = self.sync.take(&name);
        assert(self@ =~= old(self)@.after_loss(icao@));
    }
}

/// The value of a hexadecimal digit.
pub open spec fn hex_value(b: u8) -> Option<nat> {
    if 48 <= b <= 57 {
        Some((b - 48) as nat)
    } else if 97 <= b <= 102 {
        Some((b - 87) as nat)
    } else if 65 <= b <= 70 {
        Some((b - 55) as nat)
    } else {
        None
    }
}

/// The downlink format (the top five bits) of a frame given as hex bytes.
pub open spec fn downlink_format(b: Seq<u8>) -> Option<nat> {
    if b.len() < 2 || hex_value(b[0]) is None || hex_value(b[1]) is None {
        None
    } else {
        Some((16 * hex_value(b[0])->0 + hex_value(b[1])->0) / 8)
    }
}

/// ASCII letters in lower case, everything else as it is.
pub open spec fn ascii_lower(s: Seq<char>) -> Seq<char> {
    s.map_values(|c: char| if 'A' <= c <= 'Z' { (c as u32 + 32) as char } else { c })
}

/// The address in a DF17/DF18 frame: 28 hexadecimal digits, of which six
/// behind the first two are the address.
pub open spec fn adsb_address(hex: Seq<char>) -> Option<Seq<char>> {
    let b = encode_utf8(hex);
    if b.len() == 28 && hex_bytes(b) is Some && (downlink_format(b) == Some(17nat)
        || downlink_format(b) == Some(18nat)) {
        Some(ascii_lower(hex.subrange(2, 8)))
    } else {
        None
    }
}

fn lower(s: &str) -> (r: String)
    ensures
        r@ == ascii_lower(s@),
{
    let mut out = String::new();
    let n: usize = s.unicode_len();
    let mut i: usize = 0;
    while i < n
        invariant
            i <= n,
            n == s@.len(),
            out@ == ascii_lower(s@).take(i as int),
        decreases n - i,
    {
        let c: char = s.get_char(i);
        if 'A' <= c && c <= 'Z' {
            out.push((c as u8 + 32) as char);
        } else {
            out.push(c);
        }
        i = i + 1;
        assert(out@ =~= ascii_lower(s@).take(i as int));
    }
    assert(out@ =~= ascii_lower(s@));
    out
}

/// ICAO address of a DF17/DF18 frame given as hex, lowercase; None for
/// anything else. No checksum is looked at.
pub fn adsb_icao(hex: &str) -> (r: Option<String>)
    ensures
        match r {
            Some(s) => adsb_address(hex@) == Some(s@),
            None => adsb_address(hex@) is None,
        },
{
    let b = match frame_bytes(hex) {
        Some(b) => b,
        None => return None,
    };
    if b.len() != 14 {
        return None;
    }
    let df: u8 = b[0] / 8;
    if df != 17 && df != 18 {
        return None;
    }
    proof {
        lemma_plain_text(hex@, encode_utf8(hex@));
    }
    Some(lower(hex.substring_char(2, 8)))
}

/// Bytes below 128 are the characters themselves.
proof fn lemma_plain_text(s: Seq<char>, b: Seq<u8>)
    requires
        b == encode_utf8(s),
        forall|i: int| 0 <= i < b.len() ==> #[trigger] b[i] < 128,
    ensures
        s.len() == b.len(),
{
    let c = Seq::new(b.len(), |i: int| b[i] as char);
    assert(is_ascii_chars(c));
    is_ascii_chars_encode_utf8(c);
    assert(encode_utf8(c) =~= b);
    encode_utf8_decode_utf8(c);
    encode_utf8_decode_utf8(s);
}

proof fn lemma_fresh_is_smaller(v: TrafficView, now: i64)
    requires
        v.sync.dom().finite(),
    ensures
        v.fresh(now).dom().finite(),
        v.fresh(now).len() <= v.sync.len(),
{
    assert(v.fresh(now).dom().subset_of(v.sync.dom()));
    vstd::set_lib::lemma_len_subset(v.fresh(now).dom(), v.sync.dom());
}

/// Whatever the client sends, a limited sync set stays within its cap and
/// no aircraft is stopped and requested at once.
pub proof fn law_orderly_is_kept(v: TrafficView, icao: Seq<char>, now: i64)
    requires
        v.orderly(),
    ensures
        v.after_offer(icao, now).orderly(),
        v.after_sync(icao, now).orderly(),
        v.after_loss(icao).orderly(),
{
    lemma_fresh_is_smaller(v, now);
    let o = v.after_offer(icao, now);
    assert forall|x: Seq<char>| o.suppressed.contains_key(x) implies !(
    #[trigger] o.requested.contains(x)) by {
        assert(v.suppressed.contains_key(x) ==> !v.requested.contains(x));
    }
    let s = v.after_sync(icao, now);
    assert forall|x: Seq<char>| s.suppressed.contains_key(x) implies !(
    #[trigger] s.requested.contains(x)) by {
        assert(v.suppressed.contains_key(x) ==> !v.requested.contains(x));
    }
    if v.sync.contains_key(icao) {
        assert(v.sync.insert(icao, now).dom() =~= v.sync.dom());
    }
    let l = v.after_loss(icao);
    assert forall|x: Seq<char>| l.suppressed.contains_key(x) implies !(
    #[trigger] l.requested.contains(x)) by {
        assert(v.suppressed.contains_key(x) ==> !v.requested.contains(x));
    }
}

/// Without a cap every sync pair is forwarded and nothing changes.
pub proof fn law_no_cap_no_limit(v: TrafficView, icao: Seq<char>, now: i64)
    requires
        v.cap == 0,
    ensures
        v.forwards(icao, now),
        v.after_sync(icao, now) == v,
{
}

/// Only a refused sync pair stops an aircraft, and only its own: an aircraft
/// that sends no sync pairs is never stopped.
pub proof fn law_only_a_refused_sync_stops(
    v: TrafficView,
    other: Seq<char>,
    icao: Seq<char>,
    now: i64,
)
    requires
        !v.suppressed.contains_key(icao),
    ensures
        !v.after_offer(other, now).suppressed.contains_key(icao),
        !v.after_loss(other).suppressed.contains_key(icao),
        v.after_sync(other, now).suppressed.contains_key(icao) <==> other == icao && !v.forwards(
            icao,
            now,
        ),
{
}

/// An aircraft that is not stopped is started at its first offer, whatever
/// the cap.
pub proof fn law_never_stopped_is_started(v: TrafficView, icao: Seq<char>, now: i64)
    requires
        !v.suppressed.contains_key(icao),
    ensures
        !v.held_back(icao, now),
        v.after_offer(icao, now).requested.contains(icao),
{
}

/// A stopped aircraft is not asked for again before its time is over.
pub proof fn law_a_stop_lasts(v: TrafficView, icao: Seq<char>, stopped: i64, later: i64)
    requires
        !v.forwards(icao, stopped),
        later - stopped < SUPPRESS_NS,
    ensures
        v.after_sync(icao, stopped).held_back(icao, later),
        v.after_sync(icao, stopped).after_offer(icao, later) == v.after_sync(icao, stopped),
{
}

/// Once its time is over and there is room, a stopped aircraft is started
/// again and is no longer stopped.
pub proof fn law_a_stop_ends(v: TrafficView, icao: Seq<char>, now: i64)
    requires
        v.orderly(),
        v.suppressed.contains_key(icao),
        now - v.suppressed[icao] >= SUPPRESS_NS,
        v.room(now),
    ensures
        !v.held_back(icao, now) && !v.requested.contains(icao),
        v.after_offer(icao, now).requested.contains(icao),
        !v.after_offer(icao, now).suppressed.contains_key(icao),
{
    assert(v.suppressed.contains_key(icao) ==> !v.requested.contains(icao));
}

/// An aircraft whose sync pair was just forwarded is forwarded again, however
/// full the set is and however long it stays quiet in between.
pub proof fn law_forwarded_stays_forwarded(v: TrafficView, icao: Seq<char>, now: i64, later: i64)
    requires
        v.forwards(icao, now),
    ensures
        v.after_sync(icao, now).forwards(icao, later),
{
}


/// The aircraft whose last sync pair is less than 30 s old.
pub open spec fn lively(v: TrafficView, now: i64) -> Set<Seq<char>> {
    Set::new(|x: Seq<char>| v.sync.contains_key(x) && now - v.sync[x] < 30_000_000_000)
}

/// An aircraft is asked for unless it was stopped less than a minute ago, or was
/// stopped and as many others as the cap allows sent sync pairs in the last 30 s.
/// Its sync pairs are forwarded where there is no cap, where it is among those
/// kept, or where those leave room.
pub proof fn law_when_an_aircraft_is_wanted(v: TrafficView, icao: Seq<char>, now: i64)
    ensures
        v.held_back(icao, now) <==> v.suppressed.contains_key(icao) && (now - v.suppressed[icao]
            < 60_000_000_000 || (v.cap > 0 && lively(v, now).len() >= v.cap)),
        v.forwards(icao, now) <==> v.cap == 0 || v.sync.contains_key(icao) || lively(v, now).len()
            < v.cap,
{
    assert(lively(v, now) =~= v.fresh(now).dom());
}

/// What an offer leaves behind: an aircraft that is not held back is asked for
/// and no longer stopped; one that is held back is neither. No other aircraft is
/// asked for, dropped or stopped by it.
pub proof fn law_what_an_offer_leaves(v: TrafficView, icao: Seq<char>, now: i64, other: Seq<char>)
    ensures
        ({
            let t = v.after_offer(icao, now);
            &&& t.cap == v.cap
            &&& !v.held_back(icao, now) ==> t.requested.contains(icao)
                && !t.suppressed.contains_key(icao)
            &&& v.held_back(icao, now) ==> t.requested == v.requested && t.suppressed
                == v.suppressed
            &&& other != icao ==> t.requested.contains(other) == v.requested.contains(other)
                && t.suppressed.contains_key(other) == v.suppressed.contains_key(other)
                && t.suppressed[other] == v.suppressed[other]
            &&& t.sync.contains_key(other) ==> v.sync.contains_key(other) && t.sync[other]
                == v.sync[other]
            &&& v.sync.contains_key(other) && now - v.sync[other] < 30_000_000_000
                ==> t.sync.contains_key(other)
        }),
{
}

/// What a sync pair leaves behind: a forwarded one is remembered with its time,
/// a refused one stops its aircraft, which is asked for no more. No other
/// aircraft is stopped or dropped, and none that is lively leaves the set.
pub proof fn law_what_a_sync_pair_leaves(v: TrafficView, icao: Seq<char>, now: i64, other: Seq<char>)
    ensures
        ({
            let t = v.after_sync(icao, now);
            &&& t.cap == v.cap
            &&& v.cap > 0 && v.forwards(icao, now) ==> t.sync.contains_key(icao) && t.sync[icao]
                == now && t.requested == v.requested && t.suppressed == v.suppressed
            &&& !v.forwards(icao, now) ==> !t.requested.contains(icao) && t.suppressed.contains_key(
                icao,
            ) && t.suppressed[icao] == now && !t.sync.contains_key(icao)
            &&& other != icao ==> t.requested.contains(other) == v.requested.contains(other)
                && t.suppressed.contains_key(other) == v.suppressed.contains_key(other)
                && t.suppressed[other] == v.suppressed[other]
            &&& other != icao && t.sync.contains_key(other) ==> v.sync.contains_key(other)
                && t.sync[other] == v.sync[other]
            &&& other != icao && v.sync.contains_key(other) && now - v.sync[other]
                < 30_000_000_000 ==> t.sync.contains_key(other)
        }),
{
}

/// What a loss leaves behind: the aircraft is neither asked for nor kept, and a
/// stop still stands. No other aircraft changes.
pub proof fn law_what_a_loss_leaves(v: TrafficView, icao: Seq<char>, other: Seq<char>)
    ensures
        ({
            let t = v.after_loss(icao);
            &&& t.cap == v.cap
            &&& !t.requested.contains(icao)
            &&& !t.sync.contains_key(icao)
            &&& t.suppressed == v.suppressed
            &&& other != icao ==> t.requested.contains(other) == v.requested.contains(other)
                && t.sync.contains_key(other) == v.sync.contains_key(other) && t.sync[other]
                == v.sync[other]
        }),
{
}

/// An address is read from 28 hexadecimal digits whose first two stand for 136
/// to 151, that is from the formats 17 and 18: the six digits behind those two,
/// in lower case.
pub proof fn law_where_an_address_stands(hex: Seq<char>, i: int)
    requires
        adsb_address(hex) is Some,
    ensures
        ({
            let b = encode_utf8(hex);
            let a = adsb_address(hex)->0;
            &&& b.len() == 28
            &&& hex.len() == 28
            &&& 0 <= i < 28 ==> 48 <= b[i] <= 57 || 97 <= b[i] <= 102 || 65 <= b[i] <= 70
            &&& a.len() == 6
            &&& 0 <= i < 6 && !('A' <= hex[i + 2] <= 'Z') ==> a[i] == hex[i + 2]
            &&& 0 <= i < 6 && 'A' <= hex[i + 2] <= 'Z' ==> a[i] as int == hex[i + 2] as int + 32
            &&& b[0] == 56 || b[0] == 57
        }),
{
    let b = encode_utf8(hex);
    assert(hex_bytes(b) is Some);
    assert forall|k: int| 0 <= k < b.len() implies #[trigger] b[k] < 128 by {
        assert(hex_value(b[k]) is Some);
    }
    lemma_plain_text(hex, b);
    assert(hex_value(b[0]) is Some && hex_value(b[1]) is Some);
    if 0 <= i < 28 {
        assert(hex_value(b[i]) is Some);
    }
}

} // verus!

//! What leaves the server: fixes to their readers, lines to a client.

use std::collections::VecDeque;
use vstd::prelude::*;
use crate::clock::share;
use crate::geo::Real;
use crate::text::has_char;

verus! {

/// A published fix, fanned out to the row file, the feed and the clients.
pub struct Published {
    pub sbs_line: String,
    pub result_line: String,
    /// Connection serials that get `result_line`: every receiver that heard
    /// the transmission the fix was solved from.
    pub recipients: Vec<u64>,
}

impl Published {
    /// Whether the connection with this serial gets `result_line`.
    pub fn is_for(&self, uid: u64) -> (r: bool)
        ensures
            r == self.recipients@.contains(uid),
    {
        let mut i: usize = 0;
        while i < self.recipients.len()
            invariant
                i <= self.recipients@.len(),
                forall|k: int| 0 <= k < i ==> self.recipients@[k] != uid,
            decreases self.recipients@.len() - i,
        {
            if self.recipients[i] == uid {
                return true;
            }
            i = i + 1;
        }
        false
    }
}

/// A fix on its way out.
pub struct OutRow {
    /// The shard that solved it.
    pub shard: usize,
    pub lat: Real,
    pub lon: Real,
    pub icao: u32,
    pub stamp_fs: i128,
    pub csv_line: String,
    /// The smoothed twin of `csv_line`, where it is wanted.
    pub filtered_line: Option<String>,
    pub published: Published,
}

/// Fixes that the filter remembers.
pub const TWINS_KEPT: usize = 4096;

/// Femtoseconds in a bucket of the filter: 100 ms.
pub const BUCKET_FS: i128 = 100_000_000_000_000;

/// The 100 ms bucket that a stamp falls into.
pub open spec fn bucket_of(stamp_fs: int) -> int {
    stamp_fs / (BUCKET_FS as int)
}

/// Drops what two shards both solved: only the shard that owns the place of a
/// fix publishes it, and an aircraft has one fix per 100 ms.
pub struct TwinFilter {
    recent: VecDeque<(u32, i128)>,
}

impl View for TwinFilter {
    type V = Seq<(u32, i128)>;

    closed spec fn view(&self) -> Seq<(u32, i128)> {
        self.recent@
    }
}

/// Another shard owns the place of a fix.
pub open spec fn foreign(owner: Option<usize>, shard: usize) -> bool {
    owner is Some && owner->0 != shard
}

/// The last fixes that the filter remembers.
pub open spec fn newest<A>(s: Seq<A>) -> Seq<A> {
    if s.len() > TWINS_KEPT {
        s.skip(s.len() - TWINS_KEPT)
    } else {
        s
    }
}

/// A fix passes: no other shard owns its place, and none of its aircraft is
/// remembered in its tenth of a second.
pub open spec fn passes(
    known: Seq<(u32, i128)>,
    owner: Option<usize>,
    shard: usize,
    icao: u32,
    stamp_fs: i128,
) -> bool {
    !foreign(owner, shard) && !known.contains((icao, bucket_of(stamp_fs as int) as i128))
}

/// What the filter remembers once it has seen a fix.
pub open spec fn after_pass(
    known: Seq<(u32, i128)>,
    owner: Option<usize>,
    shard: usize,
    icao: u32,
    stamp_fs: i128,
) -> Seq<(u32, i128)> {
    if passes(known, owner, shard, icao, stamp_fs) {
        newest(known.push((icao, bucket_of(stamp_fs as int) as i128)))
    } else {
        known
    }
}

impl TwinFilter {
    /// Nothing remembered.
    pub fn new() -> (r: TwinFilter)
        ensures
            r@ == Seq::<(u32, i128)>::empty(),
    {
        TwinFilter { recent: VecDeque::new() }
    }

    fn knows(&self, key: (u32, i128)) -> (r: bool)
        ensures
            r == self@.contains(key),
    {
        let mut i: usize = 0;
        while i < self.recent.len()
            invariant
                i <= self.recent@.len(),
                forall|k: int| 0 <= k < i ==> self.recent@[k] != key,
            decreases self.recent@.len() - i,
        {
            let k: &(u32, i128) = &self.recent[i];
            if k.0 == key.0 && k.1 == key.1 {
                return true;
            }
            i = i + 1;
        }
        false
    }

    /// Whether a fix of `icao` by `shard` is published; `owner` is the shard that
    /// owns its place, where one does.
    pub fn pass(&mut self, owner: Option<usize>, shard: usize, icao: u32, stamp_fs: i128) -> (r:
        bool)
        requires
            old(self)@.len() <= TWINS_KEPT,
        ensures
            r == (!foreign(owner, shard) && !old(self)@.contains(
                (icao, bucket_of(stamp_fs as int) as i128),
            )),
            final(self)@ == (if r {
                newest(old(self)@.push((icao, bucket_of(stamp_fs as int) as i128)))
            } else {
                old(self)@
            }),
            final(self)@.len() <= TWINS_KEPT,
            r == passes(old(self)@, owner, shard, icao, stamp_fs),
            final(self)@ == after_pass(old(self)@, owner, shard, icao, stamp_fs),
    {
        if let Some(o) = owner {
            if o != shard {
                return false;
            }
        }
        let key: (u32, i128) = (icao, share(stamp_fs, BUCKET_FS));
        if self.knows(key) {
            return false;
        }
        let ghost all = self@.push(key);
        self.recent.push_back(key);
        if self.recent.len() > TWINS_KEPT {
            let _ = self.recent.pop_front();
            assert(self.recent@ =~= all.skip(1));
        }
        true
    }
}

/// A fix is published once: right after it was, its twin is refused.
pub proof fn law_no_twin(s: Seq<(u32, i128)>, key: (u32, i128))
    requires
        s.len() <= TWINS_KEPT,
    ensures
        newest(s.push(key)).contains(key),
{
    let t = newest(s.push(key));
    assert(t[t.len() - 1] == key);
}

/// Bytes of a batch that are sent without waiting: 32 KiB.
pub const BATCH_LIMIT: usize = 32 * 1024;

/// Lines on their way to a client, packed together.
pub struct Batch {
    bytes: Vec<u8>,
}

impl View for Batch {
    type V = Seq<u8>;

    closed spec fn view(&self) -> Seq<u8> {
        self.bytes@
    }
}

/// What goes out, and what waits, once a line has been added to a batch.
pub open spec fn after_line(waiting: Seq<u8>, line: Seq<u8>) -> (Seq<u8>, Seq<u8>) {
    if waiting.len() + line.len() >= BATCH_LIMIT {
        (waiting + line, Seq::empty())
    } else {
        (Seq::empty(), waiting + line)
    }
}

impl Batch {
    /// An empty batch.
    pub fn new() -> (r: Batch)
        ensures
            r@ == Seq::<u8>::empty(),
    {
        Batch { bytes: Vec::new() }
    }

    /// Adds a line; a batch that has grown to the limit goes out.
    pub fn push(&mut self, line: &[u8]) -> (r: Option<Vec<u8>>)
        ensures
            match r {
                Some(b) => {
                    &&& b@ == old(self)@ + line@
                    &&& b@.len() >= BATCH_LIMIT
                    &&& final(self)@ == Seq::<u8>::empty()
                },
                None => {
                    &&& final(self)@ == old(self)@ + line@
                    &&& final(self)@.len() < BATCH_LIMIT
                },
            },
            (
                match r {
                    Some(b) => b@,
                    None => Seq::<u8>::empty(),
                },
                final(self)@,
            ) == after_line(old(self)@, line@),
    {
        let ghost before = self@;
        let mut i: usize = 0;
        assert(line@.take(0) =~= Seq::<u8>::empty());
        assert(before + line@.take(0) =~= before);
        while i < line.len()
            invariant
                i <= line@.len(),
                self@ == before + line@.take(i as int),
            decreases line@.len() - i,
        {
            self.bytes.push(line[i]);
            i = i + 1;
            assert(self@ =~= before + line@.take(i as int));
        }
        assert(line@.take(i as int) =~= line@);
        if self.bytes.len() < BATCH_LIMIT {
            return None;
        }
        let mut out: Vec<u8> = Vec::new();
        std::mem::swap(&mut out, &mut self.bytes);
        Some(out)
    }

    /// Takes out what waits, where anything does: on a tick, and at the end.
    pub fn flush(&mut self) -> (r: Option<Vec<u8>>)
        ensures
            final(self)@ == Seq::<u8>::empty(),
            match r {
                Some(b) => b@ == old(self)@ && b@.len() > 0,
                None => old(self)@.len() == 0,
            },
    {
        if self.bytes.len() == 0 {
            assert(self@ =~= Seq::<u8>::empty());
            return None;
        }
        let mut out: Vec<u8> = Vec::new();
        std::mem::swap(&mut out, &mut self.bytes);
        Some(out)
    }
}

/// What a reader of the fix stream gets.
pub enum Feed<'a> {
    Fix(&'a Published),
    /// The reader was too slow and missed some.
    Lagged,
    /// The stream has ended.
    Closed,
    /// Nothing came for half a minute.
    Quiet,
}

/// What a reader of the fix stream does.
pub enum Relay {
    Write(String),
    Skip,
    Stop,
}

/// What a feed consumer is written: every fix as its feed message, an empty line
/// in quiet times, and nothing else.
pub open spec fn fed(feed: Feed) -> Option<Seq<char>> {
    match feed {
        Feed::Fix(p) => Some(p.sbs_line@),
        Feed::Quiet => Some("\n"@),
        _ => None,
    }
}

/// What the client on connection `uid` is written: the fixes that are for it, as
/// result messages, and nothing else.
pub open spec fn told(feed: Feed, uid: u64) -> Option<Seq<char>> {
    match feed {
        Feed::Fix(p) => if p.recipients@.contains(uid) {
            Some(p.result_line@)
        } else {
            None
        },
        _ => None,
    }
}

/// What a reader writes.
pub open spec fn written(r: Relay) -> Option<Seq<char>> {
    match r {
        Relay::Write(l) => Some(l@),
        _ => None,
    }
}

/// A feed consumer gets every fix, and an empty line in quiet times that keeps
/// it connected.
pub fn to_consumer(feed: &Feed) -> (r: Relay)
    ensures
        match *feed {
            Feed::Fix(p) => r matches Relay::Write(l) && l@ == p.sbs_line@,
            Feed::Lagged => r is Skip,
            Feed::Closed => r is Stop,
            Feed::Quiet => r matches Relay::Write(l) && l@ == "\n"@,
        },
        written(r) == fed(*feed),
        r is Stop <==> *feed is Closed,
{
    match feed {
        Feed::Fix(p) => Relay::Write(p.sbs_line.clone()),
        Feed::Lagged => Relay::Skip,
        Feed::Closed => Relay::Stop,
        Feed::Quiet => Relay::Write("\n".to_owned()),
    }
}

/// A client gets the fixes whose transmission it heard.
pub fn to_client(feed: &Feed, uid: u64) -> (r: Relay)
    ensures
        match *feed {
            Feed::Fix(p) => if p.recipients@.contains(uid) {
                r matches Relay::Write(l) && l@ == p.result_line@
            } else {
                r is Skip
            },
            Feed::Lagged | Feed::Quiet => r is Skip,
            Feed::Closed => r is Stop,
        },
        written(r) == told(*feed, uid),
        r is Stop <==> *feed is Closed,
{
    match feed {
        Feed::Fix(p) => if p.is_for(uid) {
            Relay::Write(p.result_line.clone())
        } else {
            Relay::Skip
        },
        Feed::Lagged | Feed::Quiet => Relay::Skip,
        Feed::Closed => Relay::Stop,
    }
}

/// Where clients connect: the address given for them, where a bare port means
/// all interfaces, else the general one.
pub open spec fn address_text(clients: Option<Seq<char>>, general: Seq<char>) -> Seq<char> {
    match clients {
        Some(s) => if s.contains(':') {
            s
        } else {
            "0.0.0.0:"@ + s
        },
        None => general,
    }
}

/// Where clients connect.
pub fn listen_address(clients: Option<&str>, general: &str) -> (r: String)
    ensures
        r@ == address_text(
            match clients {
                Some(s) => Some(s@),
                None => None,
            },
            general@,
        ),
{
    match clients {
        Some(s) => if has_char(s, ':') {
            s.to_owned()
        } else {
            let mut out = "0.0.0.0:".to_owned();
            out.append(s);
            out
        },
        None => general.to_owned(),
    }
}

/// How many shards to run.
pub open spec fn shards(asked: usize, cores: Option<usize>) -> int {
    if asked > 0 {
        asked as int
    } else if cores is Some && cores->0 > 3 {
        cores->0 - 2
    } else {
        1
    }
}

/// How many shards to run: as many as asked for, else two fewer than there are
/// cores, and at least one.
pub fn shard_count(asked: usize, cores: Option<usize>) -> (r: usize)
    ensures
        asked > 0 ==> r == asked,
        asked == 0 ==> match cores {
            Some(n) => r == if n > 3 {
                n - 2
            } else {
                1
            },
            None => r == 1,
        },
        r == shards(asked, cores),
{
    if asked > 0 {
        return asked;
    }
    match cores {
        Some(n) => if n > 3 {
            n - 2
        } else {
            1
        },
        None => 1,
    }
}

/// A statistics line is due.
pub open spec fn is_due(every_s: int, elapsed_ns: int) -> bool {
    every_s >= 0 && 100 * elapsed_ns >= 95 * 1_000_000_000 * every_s
}

/// Whether a statistics line is due: 95 % of the interval have passed. A
/// negative interval is never.
pub fn status_due(every_s: i64, elapsed_ns: u64) -> (r: bool)
    ensures
        r == (every_s >= 0 && 100 * elapsed_ns >= 95 * 1_000_000_000 * every_s),
        r == is_due(every_s as int, elapsed_ns as int),
{
    every_s >= 0 && 100 * (elapsed_ns as i128) >= 95_000_000_000 * (every_s as i128)
}

/// What each shard has done in all, when it was last asked.
pub struct Meter {
    prev: Vec<u64>,
}

impl View for Meter {
    type V = Seq<u64>;

    closed spec fn view(&self) -> Seq<u64> {
        self.prev@
    }
}

/// What was counted since a meter stood at `before`.
pub open spec fn since(before: u64, total: u64) -> int {
    if total >= before {
        total - before
    } else {
        0
    }
}

impl Meter {
    /// A meter for `n` shards.
    pub fn new(n: usize) -> (r: Meter)
        ensures
            r@ == Seq::new(n as nat, |i: int| 0u64),
    {
        let mut prev: Vec<u64> = Vec::new();
        let mut i: usize = 0;
        while i < n
            invariant
                i <= n,
                prev@ == Seq::new(i as nat, |k: int| 0u64),
            decreases n - i,
        {
            prev.push(0);
            i = i + 1;
            assert(prev@ =~= Seq::new(i as nat, |k: int| 0u64));
        }
        Meter { prev }
    }

    /// Sync observations of shard `i` since it was last asked, of `total` in all.
    pub fn rate(&mut self, i: usize, total: u64) -> (r: u64)
        requires
            i < old(self)@.len(),
        ensures
            r == (if total >= old(self)@[i as int] {
                total - old(self)@[i as int]
            } else {
                0
            }),
            final(self)@ == old(self)@.update(i as int, total),
            r == since(old(self)@[i as int], total),
    {
        let before: u64 = self.prev[i];
        self.prev[i] = total;
        if total >= before {
            total - before
        } else {
            0
        }
    }
}


/// A fix is in the tenth of a second that its stamp is in.
pub proof fn law_buckets_are_tenths_of_a_second(stamp_fs: int)
    ensures
        bucket_of(stamp_fs) * 100_000_000_000_000 <= stamp_fs,
        stamp_fs < (bucket_of(stamp_fs) + 1) * 100_000_000_000_000,
{
}

/// The filter remembers the last 4096 fixes, in order.
pub proof fn law_the_last_fixes_are_remembered<A>(s: Seq<A>, k: int)
    ensures
        newest(s).len() == if s.len() < 4096 {
            s.len()
        } else {
            4096
        },
        0 <= k < newest(s).len() ==> newest(s)[k] == s[s.len() - newest(s).len() + k],
{
}

/// Only a fix in a place that another shard owns is foreign.
pub proof fn law_when_a_fix_is_foreign(owner: usize, shard: usize)
    ensures
        foreign(Some(owner), shard) <==> owner != shard,
        !foreign(None, shard),
{
}

/// A bare port means all interfaces; anything with a colon stands as it is; and
/// without an address for clients the general one is theirs.
pub proof fn law_where_clients_connect(s: Seq<char>, general: Seq<char>)
    ensures
        s.contains(':') ==> address_text(Some(s), general) == s,
        !s.contains(':') ==> address_text(Some(s), general) == "0.0.0.0:"@ + s,
        address_text(None, general) == general,
{
}


/// An aircraft has one fix in a tenth of a second: once one has passed, another
/// of the same aircraft and the same tenth does not, whoever solved it; a fix of
/// another aircraft or another tenth passes as it would have before. A fix in
/// another shard's place never passes, and what does not pass is not remembered.
pub proof fn law_one_fix_in_a_tenth_of_a_second(
    known: Seq<(u32, i128)>,
    owner: Option<usize>,
    shard: usize,
    icao: u32,
    stamp_fs: i128,
    other_owner: Option<usize>,
    other_shard: usize,
    other: u32,
    later_fs: i128,
)
    requires
        known.len() < 4096,
        passes(known, owner, shard, icao, stamp_fs),
    ensures
        ({
            let next = after_pass(known, owner, shard, icao, stamp_fs);
            let tenth = stamp_fs as int / 100_000_000_000_000;
            let same = other == icao && later_fs as int / 100_000_000_000_000 == tenth;
            &&& same ==> !passes(next, other_owner, other_shard, other, later_fs)
            &&& !same ==> passes(next, other_owner, other_shard, other, later_fs) == passes(
                known,
                other_owner,
                other_shard,
                other,
                later_fs,
            )
            &&& other_owner is Some && other_owner->0 != other_shard ==> !passes(
                known,
                other_owner,
                other_shard,
                other,
                later_fs,
            )
            &&& !passes(known, other_owner, other_shard, other, later_fs) ==> after_pass(
                known,
                other_owner,
                other_shard,
                other,
                later_fs,
            ) == known
            &&& passes(Seq::empty(), Some(shard), shard, icao, stamp_fs)
            &&& passes(Seq::empty(), None, shard, icao, stamp_fs)
        }),
{
    let key = (icao, bucket_of(stamp_fs as int) as i128);
    let next = after_pass(known, owner, shard, icao, stamp_fs);
    assert(next == known.push(key));
    let k = (other, bucket_of(later_fs as int) as i128);
    assert(next.contains(k) <==> known.contains(k) || k == key) by {
        assert(next[next.len() - 1] == key);
        if known.contains(k) {
            let i = choose|i: int| 0 <= i < known.len() && known[i] == k;
            assert(next[i] == k);
        }
        if next.contains(k) {
            let i = choose|i: int| 0 <= i < next.len() && next[i] == k;
            if i < known.len() {
                assert(known[i] == k);
            }
        }
    }
}

/// No byte is lost, added or moved in a batch: what goes out, and what waits
/// behind it, is what waited and then the line. It waits while it is less than
/// 32 KiB, and goes out whole at that.
pub proof fn law_batches_lose_nothing(waiting: Seq<u8>, line: Seq<u8>)
    ensures
        ({
            let (out, rest) = after_line(waiting, line);
            &&& out + rest == waiting + line
            &&& out.len() == 0 <==> waiting.len() + line.len() < 32_768
            &&& rest.len() < 32_768
            &&& out.len() > 0 ==> rest.len() == 0
        }),
{
    let (out, rest) = after_line(waiting, line);
    assert(out + rest =~= waiting + line);
}

/// A fix goes to every feed consumer as its feed message, and as its result
/// message to those connections that it is for and to no others.
pub proof fn law_who_is_told_of_a_fix(p: Published, uid: u64)
    ensures
        fed(Feed::Fix(&p)) == Some(p.sbs_line@),
        p.recipients@.contains(uid) ==> told(Feed::Fix(&p), uid) == Some(p.result_line@),
        !p.recipients@.contains(uid) ==> told(Feed::Fix(&p), uid) is None,
        fed(Feed::Quiet) == Some("\n"@),
        told(Feed::Quiet, uid) is None,
        fed(Feed::Lagged) is None && told(Feed::Lagged, uid) is None,
        fed(Feed::Closed) is None && told(Feed::Closed, uid) is None,
{
}

/// As many shards as asked for; else two cores are left free, but one shard
/// runs in any case.
pub proof fn law_two_cores_are_left_free(asked: usize, n: usize)
    ensures
        asked > 0 ==> shards(asked, Some(n)) == asked && shards(asked, None) == asked,
        asked == 0 ==> shards(asked, None) == 1,
        asked == 0 && n >= 3 ==> shards(asked, Some(n)) + 2 == n,
        asked == 0 && n < 3 ==> shards(asked, Some(n)) == 1,
{
}

/// A statistics line is due after 95 % of its interval, and never for a
/// negative one; more time never makes it less so.
pub proof fn law_when_a_line_is_due(every_s: int, elapsed_ns: int, more: int)
    requires
        more >= 0,
    ensures
        every_s < 0 ==> !is_due(every_s, elapsed_ns),
        every_s >= 0 ==> (is_due(every_s, elapsed_ns) <==> elapsed_ns >= 950_000_000 * every_s),
        is_due(every_s, elapsed_ns) ==> is_due(every_s, elapsed_ns + more),
{
    assert(95 * 1_000_000_000 * every_s == 95_000_000_000 * every_s) by (nonlinear_arith);
}

/// A meter tells what came since it was last asked; over any two askings that
/// is what came in all. A count that started over tells nothing.
pub proof fn law_meters_add_up(a: u64, b: u64, c: u64)
    ensures
        a <= b <= c ==> since(a, b) + since(b, c) == since(a, c),
        a <= b ==> a + since(a, b) == b,
        a > b ==> since(a, b) == 0,
{
}

} // verus!

//! A connection after its handshake: what each event on it calls for.
//!
//! Lines come one by one, or many at a time out of a compressed frame. A
//! connection that is silent for five minutes is dead.

use vstd::prelude::*;
use crate::clock::age_of;
#[allow(unused_imports)]
use crate::clock::age;
use crate::handshake::{classify, Hello, Read};
#[allow(unused_imports)]
use crate::handshake::read_kind;
use crate::lines::heartbeat_line;
#[allow(unused_imports)]
use crate::lines::heartbeat_text;
use crate::message::{process_line, Outcome};
#[allow(unused_imports)]
use crate::message::{calls_for, traffic_after_line};
use crate::traffic::Traffic;
#[allow(unused_imports)]
use crate::traffic::TrafficView;

verus! {

/// The lines of a chunk so far: those that have ended, and the open one.
/// Empty lines are dropped.
pub open spec fn lines_so_far(b: Seq<u8>) -> (Seq<Seq<u8>>, Seq<u8>)
    decreases b.len(),
{
    if b.len() == 0 {
        (Seq::empty(), Seq::empty())
    } else {
        let (done, open) = lines_so_far(b.drop_last());
        if b.last() != 10 {
            (done, open.push(b.last()))
        } else if open.len() > 0 {
            (done.push(open), Seq::empty())
        } else {
            (done, Seq::empty())
        }
    }
}

/// The lines of a chunk: its parts between newlines, without the empty ones.
pub open spec fn lines_of(b: Seq<u8>) -> Seq<Seq<u8>> {
    let (done, open) = lines_so_far(b);
    if open.len() > 0 {
        done.push(open)
    } else {
        done
    }
}

/// The lists by their views.
pub open spec fn byte_views(list: Seq<Vec<u8>>) -> Seq<Seq<u8>> {
    list.map_values(|v: Vec<u8>| v@)
}

/// Parts a chunk at its newlines and drops empty lines.
pub fn split_lines(chunk: &[u8]) -> (r: Vec<Vec<u8>>)
    ensures
        byte_views(r@) == lines_of(chunk@),
{
    let mut done: Vec<Vec<u8>> = Vec::new();
    let mut open: Vec<u8> = Vec::new();
    let mut i: usize = 0;
    assert(byte_views(done@) =~= Seq::<Seq<u8>>::empty());
    while i < chunk.len()
        invariant
            i <= chunk@.len(),
            (byte_views(done@), open@) == lines_so_far(chunk@.take(i as int)),
        decreases chunk@.len() - i,
    {
        let b: u8 = chunk[i];
        let ghost before = byte_views(done@);
        proof {
            let next = chunk@.take(i + 1);
            assert(next.drop_last() =~= chunk@.take(i as int));
            assert(next.last() == b);
        }
        if b != 10 {
            open.push(b);
        } else if open.len() > 0 {
            let ghost line = open@;
            done.push(open);
            assert(byte_views(done@) =~= before.push(line));
            open = Vec::new();
        }
        i = i + 1;
    }
    assert(chunk@.take(i as int) =~= chunk@);
    if open.len() > 0 {
        let ghost before = byte_views(done@);
        let ghost line = open@;
        done.push(open);
        assert(byte_views(done@) =~= before.push(line));
    }
    done
}

/// What is left of a text without its newlines.
pub open spec fn without_newlines(b: Seq<u8>) -> Seq<u8>
    decreases b.len(),
{
    if b.len() == 0 {
        b
    } else if b.last() == 10 {
        without_newlines(b.drop_last())
    } else {
        without_newlines(b.drop_last()).push(b.last())
    }
}

/// The lists put together.
pub open spec fn run_together(list: Seq<Seq<u8>>) -> Seq<u8>
    decreases list.len(),
{
    if list.len() == 0 {
        Seq::empty()
    } else {
        run_together(list.drop_last()) + list.last()
    }
}

/// A line has no newline in it and is not empty.
pub open spec fn is_line(l: Seq<u8>) -> bool {
    l.len() > 0 && !l.contains(10)
}

proof fn lemma_lines_so_far(b: Seq<u8>)
    ensures
        run_together(lines_so_far(b).0) + lines_so_far(b).1 == without_newlines(b),
        !lines_so_far(b).1.contains(10),
        forall|i: int| 0 <= i < lines_so_far(b).0.len() ==> is_line(#[trigger] lines_so_far(b).0[i]),
    decreases b.len(),
{
    if b.len() > 0 {
        let rest = b.drop_last();
        lemma_lines_so_far(rest);
        let (done, open) = lines_so_far(rest);
        let (next, tail) = lines_so_far(b);
        if b.last() != 10 {
            assert(run_together(done) + open.push(b.last()) =~= (run_together(done) + open).push(
                b.last(),
            ));
            assert forall|i: int| 0 <= i < tail.len() implies tail[i] != 10 by {
                if i < open.len() {
                    assert(open.contains(open[i]));
                }
            }
        } else if open.len() > 0 {
            assert(next.drop_last() =~= done);
            assert(run_together(next) + tail =~= run_together(done) + open);
            assert forall|i: int| 0 <= i < next.len() implies is_line(#[trigger] next[i]) by {
                if i < done.len() {
                    assert(next[i] == done[i]);
                } else {
                    assert(next[i] == open);
                }
            }
        } else {
            assert(run_together(done) + tail =~= run_together(done) + open);
        }
    }
}

/// Parting a chunk loses nothing but its newlines, and every part is a line.
pub proof fn law_lines(b: Seq<u8>)
    ensures
        run_together(lines_of(b)) == without_newlines(b),
        forall|i: int| 0 <= i < lines_of(b).len() ==> is_line(#[trigger] lines_of(b)[i]),
{
    lemma_lines_so_far(b);
    let (done, open) = lines_so_far(b);
    if open.len() > 0 {
        assert(lines_of(b).drop_last() =~= done);
        assert forall|i: int| 0 <= i < lines_of(b).len() implies is_line(#[trigger] lines_of(b)[i]) by {
            if i < done.len() {
                assert(lines_of(b)[i] == done[i]);
            }
        }
    } else {
        assert(run_together(done) + open =~= run_together(done));
    }
}

/// What a connection has been asked to send, once the client has sent
/// `lines`.
pub open spec fn traffic_after_lines(v: TrafficView, lines: Seq<Seq<u8>>, now: i64) -> TrafficView
    decreases lines.len(),
{
    if lines.len() == 0 {
        v
    } else {
        traffic_after_line(
            traffic_after_lines(v, lines.drop_last(), now),
            lines.last(),
            true,
            now,
        )
    }
}

/// `work` is what `lines` call for, one by one.
pub open spec fn work_for(v: TrafficView, lines: Seq<Seq<u8>>, now: i64, work: Seq<Outcome>) -> bool {
    &&& work.len() == lines.len()
    &&& forall|i: int|
        0 <= i < lines.len() ==> calls_for(
            traffic_after_lines(v, lines.take(i), now),
            lines[i],
            true,
            now,
            #[trigger] work[i],
        )
}

/// Silence after which a connection is dead: five minutes.
pub const IDLE_NS: u64 = 300_000_000_000;

/// A connection after its handshake.
pub struct Session {
    pub user: String,
    pub wants_stats: bool,
    pub traffic: Traffic,
    /// When the client last sent anything, on a clock that never goes back.
    pub heard: u64,
}

/// What happens on a connection.
pub enum Event {
    /// A heartbeat is due.
    Heartbeat,
    /// A statistics push is due.
    Stats,
    /// A plain line was read.
    Line(Vec<u8>),
    /// A compressed frame was read and unpacked.
    Chunk(Vec<u8>),
    /// A compressed frame was read and could not be unpacked.
    BadFrame,
    /// The client is gone.
    Gone,
    /// The wait for the client has ended.
    Idle,
}

/// What an event calls for.
pub enum Step {
    /// Send a line, if there is room for it.
    Send(String),
    /// Ask the shard how the receiver does, and send it.
    AskStats,
    /// Send requests and hand reports to the shard, in this order.
    Work(Vec<Outcome>),
    Nothing,
    /// The connection is over.
    Close,
    /// The connection is broken.
    Fail(String),
}

/// The lines that an event brings.
pub open spec fn lines_in(ev: Event) -> Seq<Seq<u8>> {
    match ev {
        Event::Line(b) => if read_kind(b@) == Read::Line {
            seq![b@]
        } else {
            Seq::empty()
        },
        Event::Chunk(b) => lines_of(b@),
        _ => Seq::empty(),
    }
}

/// The client has sent something.
pub open spec fn is_sign_of_life(ev: Event) -> bool {
    ev is Line || ev is Chunk || ev is BadFrame
}

/// When the client was last heard, after some events, each with its time.
pub open spec fn heard_after(heard: u64, evs: Seq<(Event, u64)>) -> u64
    decreases evs.len(),
{
    if evs.len() == 0 {
        heard
    } else if is_sign_of_life(evs.last().0) {
        evs.last().1
    } else {
        heard_after(heard, evs.drop_last())
    }
}

/// A client that sends nothing for five minutes is dead: whatever else
/// happens on its connection, the next heartbeat, statistics push or end of a
/// wait finds it broken.
pub proof fn law_silence_ends_a_session(
    s: Session,
    t: Session,
    evs: Seq<(Event, u64)>,
    ev: Event,
    now: i64,
    running: u64,
    step: Step,
)
    requires
        forall|i: int| 0 <= i < evs.len() ==> !is_sign_of_life((#[trigger] evs[i]).0),
        t.heard == heard_after(s.heard, evs),
        age(running, s.heard) >= IDLE_NS,
        ev is Heartbeat || ev is Stats || ev is Idle,
        t.answers(ev, now, running, step),
    ensures
        step is Fail,
    decreases evs.len(),
{
    if evs.len() > 0 {
        let rest = evs.drop_last();
        assert(!is_sign_of_life(evs[evs.len() - 1].0));
        assert forall|i: int| 0 <= i < rest.len() implies !is_sign_of_life((#[trigger] rest[i]).0) by {
            assert(rest[i] == evs[i]);
        }
        law_silence_ends_a_session(s, t, rest, ev, now, running, step);
    }
}

impl Session {
    /// Nothing has come for five minutes.
    pub open spec fn is_silent(self, running: u64) -> bool {
        age(running, self.heard) >= IDLE_NS
    }

    /// `step` is what `ev` calls for at `now` on the output clock and `running`
    /// on the clock that never goes back.
    pub open spec fn answers(self, ev: Event, now: i64, running: u64, step: Step) -> bool {
        match ev {
            Event::Heartbeat => if self.is_silent(running) {
                step matches Step::Fail(why) && why@ == "idle for 5 minutes"@
            } else {
                step matches Step::Send(l) && l@ == heartbeat_text(now as int)
            },
            Event::Stats => if self.is_silent(running) {
                step matches Step::Fail(why) && why@ == "idle for 5 minutes"@
            } else if self.wants_stats {
                step is AskStats
            } else {
                step is Nothing
            },
            Event::Line(b) => match read_kind(b@) {
                Read::End => step is Close,
                Read::Cut => step matches Step::Fail(why) && why@ == "line over 256 KiB"@,
                Read::Line => step matches Step::Work(w) && work_for(
                    self.traffic@,
                    lines_in(ev),
                    now,
                    w@,
                ),
            },
            Event::Chunk(_) => step matches Step::Work(w) && work_for(
                self.traffic@,
                lines_in(ev),
                now,
                w@,
            ),
            Event::BadFrame => step matches Step::Fail(why) && why@
                == "zlib frame decode failed for "@ + self.user@,
            Event::Gone => step is Close,
            Event::Idle => if self.is_silent(running) {
                step matches Step::Fail(why) && why@ == "idle for 5 minutes"@
            } else {
                step is Nothing
            },
        }
    }

    /// A connection that a client has just opened at `running`; `cap` limits its
    /// sync aircraft, and 0 is unlimited.
    pub fn new(hello: &Hello, cap: usize, running: u64) -> (r: Session)
        ensures
            r.heard == running,
            r.user@ == hello.user@,
            r.wants_stats == hello.wants_stats,
            r.traffic@ == (TrafficView {
                cap: cap as nat,
                requested: Set::empty(),
                sync: Map::empty(),
                suppressed: Map::empty(),
            }),
    {
        Session {
            user: hello.user.clone(),
            wants_stats: hello.wants_stats,
            traffic: Traffic::new(cap),
            heard: running,
        }
    }

    /// What is left of five minutes since the client was heard.
    pub open spec fn left(self, running: u64) -> int {
        if self.is_silent(running) {
            0
        } else {
            IDLE_NS - age(running, self.heard)
        }
    }

    /// How long to wait for the client: what is left of five minutes.
    pub fn patience(&self, running: u64) -> (r: u64)
        ensures
            r == (if self.is_silent(running) {
                0
            } else {
                IDLE_NS - age(running, self.heard)
            }),
            r == 0 <==> self.is_silent(running),
            r == self.left(running),
    {
        let passed: u64 = age_of(running, self.heard);
        if passed >= IDLE_NS {
            0
        } else {
            IDLE_NS - passed
        }
    }

    /// Takes `lines` in, one by one.
    fn take_in(&mut self, lines: &Vec<Vec<u8>>, now: i64) -> (r: Vec<Outcome>)
        ensures
            final(self).user == old(self).user,
            final(self).wants_stats == old(self).wants_stats,
            final(self).heard == old(self).heard,
            final(self).traffic@ == traffic_after_lines(
                old(self).traffic@,
                byte_views(lines@),
                now,
            ),
            work_for(old(self).traffic@, byte_views(lines@), now, r@),
    {
        let ghost before = self.traffic@;
        let ghost all = byte_views(lines@);
        let mut work: Vec<Outcome> = Vec::new();
        let mut i: usize = 0;
        assert(all.take(0) =~= Seq::<Seq<u8>>::empty());
        while i < lines.len()
            invariant
                i <= lines@.len(),
                all == byte_views(lines@),
                self.user == old(self).user,
                self.wants_stats == old(self).wants_stats,
                self.heard == old(self).heard,
                self.traffic@ == traffic_after_lines(before, all.take(i as int), now),
                work@.len() == i,
                forall|k: int|
                    0 <= k < i ==> calls_for(
                        traffic_after_lines(before, all.take(k), now),
                        all[k],
                        true,
                        now,
                        #[trigger] work@[k],
                    ),
            decreases lines@.len() - i,
        {
            proof {
                let next = all.take(i + 1);
                assert(next.drop_last() =~= all.take(i as int));
                assert(next.last() == lines@[i as int]@);
            }
            let o = process_line(&mut self.traffic, lines[i].as_slice(), true, now);
            work.push(o);
            i = i + 1;
        }
        assert(all.take(i as int) =~= all);
        work
    }

    /// What `ev` calls for at `now` on the output clock and `running` on the
    /// clock that never goes back.
    pub fn step(&mut self, ev: Event, now: i64, running: u64) -> (r: Step)
        ensures
            old(self).answers(ev, now, running, r),
            final(self).user == old(self).user,
            final(self).wants_stats == old(self).wants_stats,
            final(self).heard == (if is_sign_of_life(ev) {
                running
            } else {
                old(self).heard
            }),
            final(self).traffic@ == traffic_after_lines(old(self).traffic@, lines_in(ev), now),
    {
        let silent: bool = age_of(running, self.heard) >= IDLE_NS;
        match ev {
            Event::Heartbeat => if silent {
                Step::Fail("idle for 5 minutes".to_owned())
            } else {
                Step::Send(heartbeat_line(now))
            },
            Event::Stats => if silent {
                Step::Fail("idle for 5 minutes".to_owned())
            } else if self.wants_stats {
                Step::AskStats
            } else {
                Step::Nothing
            },
            Event::Line(b) => {
                self.heard = running;
                match classify(b.as_slice()) {
                    Read::End => Step::Close,
                    Read::Cut => Step::Fail("line over 256 KiB".to_owned()),
                    Read::Line => {
                        let ghost line = b@;
                        let mut lines: Vec<Vec<u8>> = Vec::new();
                        lines.push(b);
                        assert(byte_views(lines@) =~= seq![line]);
                        Step::Work(self.take_in(&lines, now))
                    },
                }
            },
            Event::Chunk(b) => {
                self.heard = running;
                let lines = split_lines(b.as_slice());
                Step::Work(self.take_in(&lines, now))
            },
            Event::BadFrame => {
                self.heard = running;
                let mut why = "zlib frame decode failed for ".to_owned();
                why.append(self.user.as_str());
                Step::Fail(why)
            },
            Event::Gone => Step::Close,
            Event::Idle => if silent {
                Step::Fail("idle for 5 minutes".to_owned())
            } else {
                Step::Nothing
            },
        }
    }
}


/// A line by itself is one line, and a newline parts what is before it from
/// what is behind it, whatever they are.
pub proof fn law_newlines_part_lines(a: Seq<u8>, b: Seq<u8>)
    ensures
        is_line(a) ==> lines_of(a) == seq![a],
        lines_of(Seq::<u8>::empty()).len() == 0,
        lines_of(a.push(10) + b) == lines_of(a) + lines_of(b),
{
    let none = Seq::<u8>::empty();
    if is_line(a) {
        assert(forall|i: int| 0 <= i < a.len() ==> #[trigger] a[i] != 10) by {
            assert forall|i: int| 0 <= i < a.len() implies #[trigger] a[i] != 10 by {
                assert(a.contains(a[i]));
            }
        }
        lemma_open(a);
        assert(Seq::<Seq<u8>>::empty().push(a) =~= seq![a]);
    }
    lemma_parted(a, b);
    let (done, open) = lines_so_far(b);
    let head = lines_of(a);
    if open.len() > 0 {
        assert((head + done).push(open) =~= head + done.push(open));
    }
}

proof fn lemma_open(a: Seq<u8>)
    requires
        forall|i: int| 0 <= i < a.len() ==> #[trigger] a[i] != 10,
    ensures
        lines_so_far(a) == (Seq::<Seq<u8>>::empty(), a),
    decreases a.len(),
{
    if a.len() > 0 {
        lemma_open(a.drop_last());
        assert(a.drop_last().push(a.last()) =~= a);
        assert(a[a.len() - 1] != 10);
    } else {
        assert(a =~= Seq::<u8>::empty());
    }
}

proof fn lemma_parted(a: Seq<u8>, b: Seq<u8>)
    ensures
        lines_so_far(a.push(10) + b) == (lines_of(a) + lines_so_far(b).0, lines_so_far(b).1),
    decreases b.len(),
{
    let s = a.push(10) + b;
    if b.len() == 0 {
        assert(s =~= a.push(10));
        assert(s.drop_last() =~= a);
        assert(lines_of(a) + Seq::<Seq<u8>>::empty() =~= lines_of(a));
    } else {
        lemma_parted(a, b.drop_last());
        assert(s.drop_last() =~= a.push(10) + b.drop_last());
        assert(s.last() == b.last());
        let (done, open) = lines_so_far(b.drop_last());
        assert((lines_of(a) + done).push(open) =~= lines_of(a) + done.push(open));
    }
}

/// A connection is dead where nothing came for 300 s or more, and only so: then
/// a heartbeat, a statistics push and the end of a wait break it. Else they do
/// what they are for: a heartbeat is sent, statistics are asked for by those who
/// want them, and a wait goes on.
pub proof fn law_what_a_tick_calls_for(s: Session, ev: Event, now: i64, running: u64, step: Step)
    requires
        s.answers(ev, now, running, step),
    ensures
        ({
            let dead = running >= s.heard && running - s.heard >= 300_000_000_000;
            &&& ev is Heartbeat ==> (step is Fail <==> dead) && (step is Send <==> !dead)
            &&& ev is Stats ==> (step is Fail <==> dead) && (step is AskStats <==> !dead
                && s.wants_stats) && (step is Nothing <==> !dead && !s.wants_stats)
            &&& ev is Idle ==> (step is Fail <==> dead) && (step is Nothing <==> !dead)
            &&& ev is Gone ==> step is Close
            &&& ev is BadFrame ==> step is Fail
            &&& ev is Chunk ==> step is Work
            &&& ev matches Event::Line(b) ==> {
                &&& b@.len() == 0 ==> step is Close
                &&& b@.len() > 0 && b@.last() == 10 ==> step is Work
                &&& b@.len() > 0 && b@.last() != 10 ==> step is Fail
            }
        }),
{
}


/// Lines are taken in one after the other: what a client has been asked for
/// after one more line is what that line makes of it.
pub proof fn law_lines_are_taken_in_turn(
    v: TrafficView,
    lines: Seq<Seq<u8>>,
    line: Seq<u8>,
    now: i64,
    work: Seq<Outcome>,
    i: int,
)
    requires
        work_for(v, lines.push(line), now, work),
    ensures
        traffic_after_lines(v, lines.push(line), now) == traffic_after_line(
            traffic_after_lines(v, lines, now),
            line,
            true,
            now,
        ),
        traffic_after_lines(v, Seq::empty(), now) == v,
        work.len() == lines.len() + 1,
        calls_for(traffic_after_lines(v, lines, now), line, true, now, work[lines.len() as int]),
{
    let all = lines.push(line);
    assert(all.drop_last() =~= lines);
    assert(all.take(lines.len() as int) =~= lines);
    assert(all[lines.len() as int] == line);
}

/// The lines of an event: a whole line by itself, the lines of a chunk, and none
/// of anything else. A client is alive when it sends, whatever it sends.
pub proof fn law_what_an_event_brings(ev: Event)
    ensures
        ev matches Event::Line(b) ==> {
            &&& b@.len() > 0 && b@.last() == 10 ==> lines_in(ev) == seq![b@]
            &&& b@.len() == 0 || b@.last() != 10 ==> lines_in(ev).len() == 0
            &&& is_sign_of_life(ev)
        },
        ev matches Event::Chunk(b) ==> lines_in(ev) == lines_of(b@) && is_sign_of_life(ev),
        ev is BadFrame ==> lines_in(ev).len() == 0 && is_sign_of_life(ev),
        ev is Heartbeat || ev is Stats || ev is Gone || ev is Idle ==> lines_in(ev).len() == 0
            && !is_sign_of_life(ev),
{
}


/// The wait for a client ends 300 s after it was last heard, and after that
/// there is none; a client that was heard in the future has all of it.
pub proof fn law_how_long_a_client_is_waited_for(s: Session, running: u64)
    ensures
        running >= s.heard && running - s.heard < 300_000_000_000 ==> running + s.left(running)
            == s.heard + 300_000_000_000,
        running >= s.heard && running - s.heard >= 300_000_000_000 ==> s.left(running) == 0,
        running < s.heard ==> s.left(running) == 300_000_000_000,
{
}

} // verus!

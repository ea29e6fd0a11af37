//! One line from a connected client: what to ask of the client and what to
//! hand to the shard.
//!
//! Offered aircraft (a seen list or the names of a rate report) are started
//! unless they already are; sync pairs beyond the per-receiver ADS-B cap turn
//! into a stop request.

use vstd::prelude::*;
use crate::geo::Real;
use crate::json::{list_to_string, read_json, Json};
#[allow(unused_imports)]
use crate::json::{
    holds, lacks, law_fields_are_found, law_texts_are_read, parsed, quoted_list, texts_of, Tree,
};
#[allow(unused_imports)]
use crate::text::texts;
use crate::traffic::{adsb_icao, Traffic};
#[allow(unused_imports)]
use crate::traffic::{adsb_address, ascii_lower, law_orderly_is_kept, TrafficView};

verus! {

/// A text in lower case by the Unicode rules.
pub uninterp spec fn lowercase(s: Seq<char>) -> Seq<char>;

/// `str::to_lowercase`: the Unicode lower case, named [`lowercase`]. In ASCII
/// text that is the lower case of its letters.
pub assume_specification[ str::to_lowercase ](s: &str) -> (r: String)
    ensures
        r@ == lowercase(s@),
        vstd::utf8::is_ascii_chars(s@) ==> r@ == ascii_lower(s@),
;

/// What a line hands to the shard.
pub enum Forward {
    Nothing,
    /// A sync pair: both arrival counts and both frames as hex.
    Sync { et: Real, ot: Real, em: String, om: String },
    /// One frame for multilateration: its arrival count and hex.
    Mlat { t: Real, m: String },
    /// The receiver's clock started over.
    ClockReset,
}

/// The model of [`Forward`].
pub enum ForwardView {
    Nothing,
    Sync { et: Real, ot: Real, em: Seq<char>, om: Seq<char> },
    Mlat { t: Real, m: Seq<char> },
    ClockReset,
}

impl View for Forward {
    type V = ForwardView;

    open spec fn view(&self) -> ForwardView {
        match self {
            Forward::Nothing => ForwardView::Nothing,
            Forward::Sync { et, ot, em, om } => ForwardView::Sync {
                et: *et,
                ot: *ot,
                em: em@,
                om: om@,
            },
            Forward::Mlat { t, m } => ForwardView::Mlat { t: *t, m: m@ },
            Forward::ClockReset => ForwardView::ClockReset,
        }
    }
}

/// What one line calls for: requests to the client, in this order, and what
/// goes to the shard.
pub struct Outcome {
    pub start: Option<String>,
    pub stop: Option<String>,
    pub forward: Forward,
}

/// The text of an optional line.
pub open spec fn line_text(line: Option<String>) -> Option<Seq<char>> {
    match line {
        Some(s) => Some(s@),
        None => None,
    }
}

/// Every text in lower case.
pub open spec fn lowercased(list: Seq<Seq<char>>) -> Seq<Seq<char>> {
    list.map_values(|s: Seq<char>| lowercase(s))
}

/// The texts in the list field `key`.
pub open spec fn listed(msg: Tree, key: Seq<char>) -> Seq<Seq<char>> {
    match msg.field(key) {
        Some(t) => t.texts_in(),
        None => Seq::empty(),
    }
}

/// The names in the object field `key`.
pub open spec fn named(msg: Tree, key: Seq<char>) -> Seq<Seq<char>> {
    match msg.field(key) {
        Some(t) => t.names_in(),
        None => Seq::empty(),
    }
}

/// The aircraft a message offers, in order.
pub open spec fn offers(msg: Tree) -> Seq<Seq<char>> {
    lowercased(listed(msg, "seen"@)) + lowercased(named(msg, "rate_report"@))
}

/// The aircraft a message reports gone, in order.
pub open spec fn losses(msg: Tree) -> Seq<Seq<char>> {
    lowercased(listed(msg, "lost"@))
}

/// The traffic state after all of `names` were offered in turn.
pub open spec fn after_offers(v: TrafficView, names: Seq<Seq<char>>, now: i64) -> TrafficView
    decreases names.len(),
{
    if names.len() == 0 {
        v
    } else {
        after_offers(v, names.drop_last(), now).after_offer(names.last(), now)
    }
}

/// Those of `names` that are started when all are offered in turn.
pub open spec fn started(v: TrafficView, names: Seq<Seq<char>>, now: i64) -> Seq<Seq<char>>
    decreases names.len(),
{
    if names.len() == 0 {
        Seq::empty()
    } else {
        let w = after_offers(v, names.drop_last(), now);
        let head = started(v, names.drop_last(), now);
        if !w.held_back(names.last(), now) && !w.requested.contains(names.last()) {
            head.push(names.last())
        } else {
            head
        }
    }
}

/// The traffic state after all of `names` were lost in turn.
pub open spec fn after_losses(v: TrafficView, names: Seq<Seq<char>>) -> TrafficView
    decreases names.len(),
{
    if names.len() == 0 {
        v
    } else {
        after_losses(v, names.drop_last()).after_loss(names.last())
    }
}

/// The traffic state once a message's offers and losses are taken in;
/// without a way to reply to the client they are not looked at.
pub open spec fn settled(v: TrafficView, msg: Tree, reply: bool, now: i64) -> TrafficView {
    if reply {
        after_losses(after_offers(v, offers(msg), now), losses(msg))
    } else {
        v
    }
}

/// The request to start `names`, if there are any.
pub open spec fn start_line(names: Seq<Seq<char>>) -> Option<Seq<char>> {
    if names.len() == 0 {
        None
    } else {
        Some("{\"start_sending\":"@ + quoted_list(names) + "}\n"@)
    }
}

/// The request to stop `icao`.
pub open spec fn stop_line(icao: Seq<char>) -> Seq<char> {
    "{\"stop_sending\":[\""@ + icao + "\"]}\n"@
}

/// A message's sync pair, where it has a whole one.
pub open spec fn sync_pair(msg: Tree) -> Option<ForwardView> {
    match msg.field("sync"@) {
        Some(sy) => if sy.real_at("et"@) is Some && sy.real_at("ot"@) is Some && sy.text_at("em"@)
            is Some && sy.text_at("om"@) is Some {
            Some(
                ForwardView::Sync {
                    et: sy.real_at("et"@)->0,
                    ot: sy.real_at("ot"@)->0,
                    em: sy.text_at("em"@)->0,
                    om: sy.text_at("om"@)->0,
                },
            )
        } else {
            None
        },
        None => None,
    }
}

/// The ADS-B aircraft a message's sync pair is from.
pub open spec fn sync_address(msg: Tree) -> Option<Seq<char>> {
    match sync_pair(msg) {
        Some(p) => adsb_address(p->em),
        None => None,
    }
}

/// The message's sync pair is over the cap of `v` (its offers taken in).
pub open spec fn over_cap(v: TrafficView, msg: Tree, now: i64) -> bool {
    sync_address(msg) is Some && !v.forwards(sync_address(msg)->0, now)
}

/// What a message hands to the shard; `v` has the offers taken in.
pub open spec fn forwarded(v: TrafficView, msg: Tree, now: i64) -> ForwardView {
    if msg.field("sync"@) is Some {
        if sync_pair(msg) is None || over_cap(v, msg, now) {
            ForwardView::Nothing
        } else {
            sync_pair(msg)->0
        }
    } else if msg.field("mlat"@) is Some {
        let ml = msg.field("mlat"@)->0;
        if ml.real_at("t"@) is Some && ml.text_at("m"@) is Some {
            ForwardView::Mlat { t: ml.real_at("t"@)->0, m: ml.text_at("m"@)->0 }
        } else {
            ForwardView::Nothing
        }
    } else if msg.field("clock_reset"@) is Some || msg.field("clock_jump"@) is Some {
        ForwardView::ClockReset
    } else {
        ForwardView::Nothing
    }
}

/// The traffic state a message leaves behind.
pub open spec fn traffic_after(v: TrafficView, msg: Tree, reply: bool, now: i64) -> TrafficView {
    let w = settled(v, msg, reply, now);
    if sync_address(msg) is Some {
        w.after_sync(sync_address(msg)->0, now)
    } else {
        w
    }
}

/// The request to start aircraft that a message calls for.
pub open spec fn start_of(v: TrafficView, msg: Tree, reply: bool, now: i64) -> Option<Seq<char>> {
    if reply {
        start_line(started(v, offers(msg), now))
    } else {
        None
    }
}

/// The request to stop an aircraft that a message calls for.
pub open spec fn stop_of(v: TrafficView, msg: Tree, reply: bool, now: i64) -> Option<Seq<char>> {
    if reply && over_cap(settled(v, msg, reply, now), msg, now) {
        Some(stop_line(sync_address(msg)->0))
    } else {
        None
    }
}

proof fn lemma_offers_keep(v: TrafficView, names: Seq<Seq<char>>, now: i64)
    requires
        v.orderly(),
    ensures
        after_offers(v, names, now).orderly(),
        after_offers(v, names, now).cap == v.cap,
    decreases names.len(),
{
    if names.len() > 0 {
        lemma_offers_keep(v, names.drop_last(), now);
        law_orderly_is_kept(after_offers(v, names.drop_last(), now), names.last(), now);
    }
}

proof fn lemma_losses_keep(v: TrafficView, names: Seq<Seq<char>>)
    requires
        v.orderly(),
    ensures
        after_losses(v, names).orderly(),
        after_losses(v, names).cap == v.cap,
    decreases names.len(),
{
    if names.len() > 0 {
        lemma_losses_keep(v, names.drop_last());
        law_orderly_is_kept(after_losses(v, names.drop_last()), names.last(), 0);
    }
}

/// Whatever a client sends, a limited sync set stays within its cap, no
/// aircraft is stopped and requested at once, and the cap does not change.
pub proof fn law_orderly_over_messages(v: TrafficView, msg: Tree, reply: bool, now: i64)
    requires
        v.orderly(),
    ensures
        traffic_after(v, msg, reply, now).orderly(),
        traffic_after(v, msg, reply, now).cap == v.cap,
{
    lemma_offers_keep(v, offers(msg), now);
    lemma_losses_keep(after_offers(v, offers(msg), now), losses(msg));
    if sync_address(msg) is Some {
        law_orderly_is_kept(settled(v, msg, reply, now), sync_address(msg)->0, now);
    }
}

/// Without a cap no client is ever told to stop, and every whole sync pair
/// goes to the shard.
pub proof fn law_no_cap_no_stop(v: TrafficView, msg: Tree, reply: bool, now: i64)
    requires
        v.cap == 0,
        v.orderly(),
    ensures
        stop_of(v, msg, reply, now) is None,
        sync_pair(msg) is Some ==> forwarded(settled(v, msg, reply, now), msg, now) == sync_pair(
            msg,
        )->0,
{
    lemma_offers_keep(v, offers(msg), now);
    lemma_losses_keep(after_offers(v, offers(msg), now), losses(msg));
}

/// A sync pair goes to the shard as it came: the even and the odd arrival count
/// and the even and the odd frame, each from the field of its name. One that
/// lacks any of the four goes nowhere.
pub proof fn law_sync_pairs_arrive_whole(
    v: TrafficView,
    msg: Tree,
    now: i64,
    sy: Tree,
    i: Option<i64>,
    j: Option<i64>,
    et: Real,
    ot: Real,
    em: Seq<char>,
    om: Seq<char>,
)
    requires
        holds(msg, "sync"@, sy),
    ensures
        ({
            let whole = holds(sy, "et"@, Tree::Number(i, Some(et))) && holds(
                sy,
                "ot"@,
                Tree::Number(j, Some(ot)),
            ) && holds(sy, "em"@, Tree::Text(em)) && holds(sy, "om"@, Tree::Text(om));
            let free = v.cap == 0 || adsb_address(em) is None || v.sync.contains_key(
                adsb_address(em)->0,
            );
            &&& whole && free ==> forwarded(v, msg, now) == (ForwardView::Sync { et, ot, em, om })
            &&& whole ==> forwarded(v, msg, now) == (ForwardView::Sync { et, ot, em, om })
                || forwarded(v, msg, now) == ForwardView::Nothing
            &&& lacks(sy, "et"@) || lacks(sy, "ot"@) || lacks(sy, "em"@) || lacks(sy, "om"@)
                ==> forwarded(v, msg, now) == ForwardView::Nothing
        }),
{
    law_fields_are_found(msg, "sync"@, sy);
    law_fields_are_found(sy, "et"@, Tree::Number(i, Some(et)));
    law_fields_are_found(sy, "ot"@, Tree::Number(j, Some(ot)));
    law_fields_are_found(sy, "em"@, Tree::Text(em));
    law_fields_are_found(sy, "om"@, Tree::Text(om));
}

/// A frame goes to the shard as it came, with its own arrival count; one that
/// lacks either goes nowhere. A clock that started over or jumped is reported.
/// Anything else goes nowhere.
pub proof fn law_frames_arrive_whole(
    v: TrafficView,
    msg: Tree,
    now: i64,
    ml: Tree,
    i: Option<i64>,
    t: Real,
    m: Seq<char>,
    x: Tree,
)
    requires
        lacks(msg, "sync"@),
    ensures
        holds(msg, "mlat"@, ml) && holds(ml, "t"@, Tree::Number(i, Some(t))) && holds(
            ml,
            "m"@,
            Tree::Text(m),
        ) ==> forwarded(v, msg, now) == (ForwardView::Mlat { t, m }),
        holds(msg, "mlat"@, ml) && (lacks(ml, "t"@) || lacks(ml, "m"@)) ==> forwarded(v, msg, now)
            == ForwardView::Nothing,
        lacks(msg, "mlat"@) && (holds(msg, "clock_reset"@, x) || holds(msg, "clock_jump"@, x))
            ==> forwarded(v, msg, now) == ForwardView::ClockReset,
        lacks(msg, "mlat"@) && lacks(msg, "clock_reset"@) && lacks(msg, "clock_jump"@)
            ==> forwarded(v, msg, now) == ForwardView::Nothing,
{
    law_fields_are_found(msg, "sync"@, x);
    law_fields_are_found(msg, "mlat"@, ml);
    law_fields_are_found(ml, "t"@, Tree::Number(i, Some(t)));
    law_fields_are_found(ml, "m"@, Tree::Text(m));
    law_fields_are_found(msg, "clock_reset"@, x);
    law_fields_are_found(msg, "clock_jump"@, x);
}

/// The aircraft that a message offers are the texts of its seen list and the
/// names in its rate report, those that it loses the texts of its lost list, all
/// in lower case.
pub proof fn law_offers_and_losses(
    msg: Tree,
    seen: Seq<Tree>,
    rates: Seq<(Seq<char>, Tree)>,
    lost: Seq<Tree>,
    name: Seq<char>,
    k: int,
)
    requires
        holds(msg, "seen"@, Tree::List(seen)) || (lacks(msg, "seen"@) && seen.len() == 0),
        holds(msg, "rate_report"@, Tree::Object(rates)) || (lacks(msg, "rate_report"@)
            && rates.len() == 0),
        holds(msg, "lost"@, Tree::List(lost)) || (lacks(msg, "lost"@) && lost.len() == 0),
    ensures
        seen.contains(Tree::Text(name)) ==> offers(msg).contains(lowercase(name)),
        0 <= k < rates.len() ==> offers(msg).contains(lowercase(rates[k].0)),
        lost.contains(Tree::Text(name)) ==> losses(msg).contains(lowercase(name)),
        0 <= k < offers(msg).len() ==> is_name_in(offers(msg)[k], seen, rates),
        0 <= k < losses(msg).len() ==> is_name_in(losses(msg)[k], lost, Seq::empty()),
{
    law_fields_are_found(msg, "seen"@, Tree::List(seen));
    law_fields_are_found(msg, "rate_report"@, Tree::Object(rates));
    law_fields_are_found(msg, "lost"@, Tree::List(lost));
    law_texts_are_read(seen, name, Tree::Null);
    law_texts_are_read(lost, name, Tree::Null);
    let (a, b, c) = (texts_of(seen), named(msg, "rate_report"@), texts_of(lost));
    assert(listed(msg, "seen"@) =~= a);
    assert(listed(msg, "lost"@) =~= c);
    assert(b =~= Seq::new(rates.len(), |i: int| rates[i].0));
    let o = offers(msg);
    if a.contains(name) {
        let i = choose|i: int| 0 <= i < a.len() && a[i] == name;
        assert(o[i] == lowercase(name));
    }
    if 0 <= k < rates.len() {
        assert(o[a.len() + k] == lowercase(rates[k].0));
    }
    if c.contains(name) {
        let i = choose|i: int| 0 <= i < c.len() && c[i] == name;
        assert(losses(msg)[i] == lowercase(name));
    }
    if 0 <= k < o.len() {
        if k < a.len() {
            law_texts_are_read(seen, a[k], Tree::Null);
            assert(o[k] == lowercase(a[k]));
            assert(seen.contains(Tree::Text(a[k])));
        } else {
            assert(o[k] == lowercase(rates[k - a.len()].0));
        }
    }
    if 0 <= k < losses(msg).len() {
        law_texts_are_read(lost, c[k], Tree::Null);
        assert(losses(msg)[k] == lowercase(c[k]));
        assert(lost.contains(Tree::Text(c[k])));
    }
}

/// `x` is a text in `list`, or the name of a field in `fields`, in lower case.
pub open spec fn is_name_in(
    x: Seq<char>,
    list: Seq<Tree>,
    fields: Seq<(Seq<char>, Tree)>,
) -> bool {
    (exists|n: Seq<char>| #[trigger] list.contains(Tree::Text(n)) && x == lowercase(n)) || (
    exists|i: int| 0 <= i < fields.len() && x == lowercase((#[trigger] fields[i]).0))
}

/// A message starts an aircraft at most once, and none that the client was
/// already told to send.
pub proof fn law_started_once(v: TrafficView, names: Seq<Seq<char>>, now: i64)
    ensures
        started(v, names, now).no_duplicates(),
        forall|icao: Seq<char>| #[trigger]
            started(v, names, now).contains(icao) ==> names.contains(icao) && !v.requested.contains(
                icao,
            ) && after_offers(v, names, now).requested.contains(icao),
        v.requested.subset_of(after_offers(v, names, now).requested),
    decreases names.len(),
{
    if names.len() > 0 {
        let (front, last) = (names.drop_last(), names.last());
        law_started_once(v, front, now);
        let w = after_offers(v, front, now);
        let head = started(v, front, now);
        let all = started(v, names, now);
        assert forall|icao: Seq<char>| #[trigger] all.contains(icao) implies names.contains(icao)
            && !v.requested.contains(icao) && after_offers(v, names, now).requested.contains(
            icao,
        ) by {
            let i = choose|i: int| 0 <= i < all.len() && all[i] == icao;
            if i < head.len() {
                assert(head[i] == icao);
                assert(head.contains(icao));
                let k = choose|k: int| 0 <= k < front.len() && front[k] == icao;
                assert(names[k] == icao);
            } else {
                assert(names[names.len() - 1] == icao);
            }
        }
        if all.len() > head.len() {
            assert(!head.contains(last));
            assert forall|i: int, j: int|
                0 <= i < all.len() && 0 <= j < all.len() && i != j implies all[i] != all[j] by {
                if i == head.len() {
                    assert(head[j] == all[j]);
                    assert(head.contains(all[j]));
                } else if j == head.len() {
                    assert(head[i] == all[i]);
                    assert(head.contains(all[i]));
                } else {
                    assert(head[i] == all[i] && head[j] == all[j]);
                }
            }
        }
    }
}

/// All of `list` in lower case.
fn lower_all(list: &Vec<String>) -> (r: Vec<String>)
    ensures
        texts(r@) == lowercased(texts(list@)),
{
    let mut out: Vec<String> = Vec::new();
    let mut i: usize = 0;
    while i < list.len()
        invariant
            i <= list@.len(),
            out@.len() == i,
            forall|j: int| 0 <= j < i ==> (#[trigger] out@[j])@ == lowercase(list@[j]@),
        decreases list@.len() - i,
    {
        out.push(list[i].as_str().to_lowercase());
        i = i + 1;
    }
    assert(texts(out@) =~= lowercased(texts(list@)));
    out
}

fn listed_in(msg: &Json, key: &str) -> (r: Vec<String>)
    ensures
        texts(r@) == listed(msg.tree(), key@),
{
    match msg.get(key) {
        Some(j) => j.texts_in(),
        None => {
            let r: Vec<String> = Vec::new();
            assert(texts(r@) =~= Seq::empty());
            r
        },
    }
}

fn named_in(msg: &Json, key: &str) -> (r: Vec<String>)
    ensures
        texts(r@) == named(msg.tree(), key@),
{
    match msg.get(key) {
        Some(j) => j.names_in(),
        None => {
            let r: Vec<String> = Vec::new();
            assert(texts(r@) =~= Seq::empty());
            r
        },
    }
}

/// Offers `names` in turn; `fresh` grows by those that are started.
fn offer_all(traffic: &mut Traffic, names: &Vec<String>, now: i64) -> (fresh: Vec<String>)
    ensures
        final(traffic)@ == after_offers(old(traffic)@, texts(names@), now),
        texts(fresh@) == started(old(traffic)@, texts(names@), now),
{
    let mut fresh: Vec<String> = Vec::new();
    let ghost v = traffic@;
    let ghost all = texts(names@);
    let mut i: usize = 0;
    assert(texts(fresh@) =~= Seq::empty());
    while i < names.len()
        invariant
            i <= names@.len(),
            all == texts(names@),
            traffic@ == after_offers(v, all.take(i as int), now),
            texts(fresh@) == started(v, all.take(i as int), now),
        decreases names@.len() - i,
    {
        assert(all.take(i + 1).drop_last() =~= all.take(i as int));
        assert(all.take(i + 1).last() == names@[i as int]@);
        let ghost before = fresh@;
        if traffic.offered(names[i].as_str(), now) {
            fresh.push(names[i].clone());
            assert(texts(fresh@) =~= texts(before).push(names@[i as int]@));
        }
        i = i + 1;
    }
    assert(all.take(names@.len() as int) =~= all);
    fresh
}

fn lose_all(traffic: &mut Traffic, names: &Vec<String>)
    ensures
        final(traffic)@ == after_losses(old(traffic)@, texts(names@)),
{
    let ghost v = traffic@;
    let ghost all = texts(names@);
    let mut i: usize = 0;
    while i < names.len()
        invariant
            i <= names@.len(),
            all == texts(names@),
            traffic@ == after_losses(v, all.take(i as int)),
        decreases names@.len() - i,
    {
        assert(all.take(i + 1).drop_last() =~= all.take(i as int));
        assert(all.take(i + 1).last() == names@[i as int]@);
        traffic.lost(names[i].as_str());
        i = i + 1;
    }
    assert(all.take(names@.len() as int) =~= all);
}

fn write_start_line(fresh: &Vec<String>) -> (r: Option<String>)
    ensures
        line_text(r) == start_line(texts(fresh@)),
{
    if fresh.len() == 0 {
        return None;
    }
    let mut out = "{\"start_sending\":".to_owned();
    out.append(list_to_string(fresh).as_str());
    out.append("}\n");
    Some(out)
}

fn write_stop_line(icao: &str) -> (r: String)
    ensures
        r@ == stop_line(icao@),
{
    let mut out = "{\"stop_sending\":[\"".to_owned();
    out.append(icao);
    out.append("\"]}\n");
    out
}

/// Takes a message from the client in. `reply` says whether requests can be
/// sent back.
pub fn process_message(traffic: &mut Traffic, msg: &Json, reply: bool, now: i64) -> (r: Outcome)
    ensures
        final(traffic)@ == traffic_after(old(traffic)@, msg.tree(), reply, now),
        line_text(r.start) == start_of(old(traffic)@, msg.tree(), reply, now),
        line_text(r.stop) == stop_of(old(traffic)@, msg.tree(), reply, now),
        r.forward@ == forwarded(
            settled(old(traffic)@, msg.tree(), reply, now),
            msg.tree(),
            now,
        ),
{
    let ghost v = traffic@;
    let ghost tree = msg.tree();
    let mut start: Option<String> = None;
    if reply {
        let seen = lower_all(&listed_in(msg, "seen"));
        let rated = lower_all(&named_in(msg, "rate_report"));
        let mut names = seen;
        let mut more = rated;
        let ghost (a, b) = (names@, more@);
        names.append(&mut more);
        assert(texts(names@) =~= texts(a) + texts(b));
        let fresh = offer_all(traffic, &names, now);
        start = write_start_line(&fresh);
        lose_all(traffic, &lower_all(&listed_in(msg, "lost")));
    }
    let ghost w = traffic@;
    assert(w == settled(v, tree, reply, now));
    let mut stop: Option<String> = None;
    let forward = match msg.get("sync") {
        Some(sy) => match (sy.real_at("et"), sy.real_at("ot"), sy.text_at("em"), sy.text_at("om")) {
            (Some(et), Some(ot), Some(em), Some(om)) => {
                let pass: bool = match adsb_icao(em.as_str()) {
                    Some(icao) => {
                        let pass: bool = traffic.on_sync(icao.as_str(), now);
                        if !pass && reply {
                            stop = Some(write_stop_line(icao.as_str()));
                        }
                        pass
                    },
                    None => true,
                };
                if pass {
                    Forward::Sync { et, ot, em, om }
                } else {
                    Forward::Nothing
                }
            },
            _ => Forward::Nothing,
        },
        None => match msg.get("mlat") {
            Some(ml) => match (ml.real_at("t"), ml.text_at("m")) {
                (Some(t), Some(m)) => Forward::Mlat { t, m },
                _ => Forward::Nothing,
            },
            None => {
                if msg.get("clock_reset").is_some() || msg.get("clock_jump").is_some() {
                    Forward::ClockReset
                } else {
                    Forward::Nothing
                }
            },
        },
    };
    Outcome { start, stop, forward }
}

/// What a connection has been asked to send, once the client has sent a
/// line; one that is no JSON document changes nothing.
pub open spec fn traffic_after_line(v: TrafficView, line: Seq<u8>, reply: bool, now: i64) -> TrafficView {
    match parsed(line) {
        Some(msg) => traffic_after(v, msg, reply, now),
        None => v,
    }
}

/// `o` is what a line calls for; one that is no JSON document calls for
/// nothing.
pub open spec fn calls_for(v: TrafficView, line: Seq<u8>, reply: bool, now: i64, o: Outcome) -> bool {
    match parsed(line) {
        Some(msg) => {
            &&& line_text(o.start) == start_of(v, msg, reply, now)
            &&& line_text(o.stop) == stop_of(v, msg, reply, now)
            &&& o.forward@ == forwarded(settled(v, msg, reply, now), msg, now)
        },
        None => {
            &&& o.start is None
            &&& o.stop is None
            &&& o.forward@ == ForwardView::Nothing
        },
    }
}

/// Takes a line from the client in.
pub fn process_line(traffic: &mut Traffic, line: &[u8], reply: bool, now: i64) -> (r: Outcome)
    ensures
        final(traffic)@ == traffic_after_line(old(traffic)@, line@, reply, now),
        calls_for(old(traffic)@, line@, reply, now, r),
{
    match read_json(line) {
        Some(msg) => process_message(traffic, &msg, reply, now),
        None => Outcome { start: None, stop: None, forward: Forward::Nothing },
    }
}


/// What a client lost is not asked for, and what it offers is, unless it was
/// stopped; without a way to reply to it nothing changes.
pub proof fn law_offers_are_taken_before_losses(v: TrafficView, msg: Tree, now: i64, name: Seq<char>)
    ensures
        losses(msg).contains(name) ==> !settled(v, msg, true, now).requested.contains(name)
            && !settled(v, msg, true, now).sync.contains_key(name),
        offers(msg).contains(name) && !losses(msg).contains(name) && !v.suppressed.contains_key(name)
            ==> settled(v, msg, true, now).requested.contains(name),
        !offers(msg).contains(name) && !losses(msg).contains(name) ==> settled(
            v,
            msg,
            true,
            now,
        ).requested.contains(name) == v.requested.contains(name),
        settled(v, msg, false, now) == v,
{
    lemma_offered(v, offers(msg), now, name);
    lemma_lost(after_offers(v, offers(msg), now), losses(msg), name);
}

proof fn lemma_offered(v: TrafficView, names: Seq<Seq<char>>, now: i64, name: Seq<char>)
    ensures
        !v.suppressed.contains_key(name) ==> !after_offers(v, names, now).suppressed.contains_key(
            name,
        ),
        names.contains(name) && !v.suppressed.contains_key(name) ==> after_offers(
            v,
            names,
            now,
        ).requested.contains(name),
        !names.contains(name) ==> after_offers(v, names, now).requested.contains(name)
            == v.requested.contains(name),
        v.requested.contains(name) ==> after_offers(v, names, now).requested.contains(name),
    decreases names.len(),
{
    if names.len() > 0 {
        let rest = names.drop_last();
        lemma_offered(v, rest, now, name);
        assert(names[names.len() - 1] == names.last());
        if names.contains(name) && name != names.last() {
            let i = choose|i: int| 0 <= i < names.len() && names[i] == name;
            assert(rest[i] == name);
        }
        if rest.contains(name) {
            let i = choose|i: int| 0 <= i < rest.len() && rest[i] == name;
            assert(names[i] == name);
        }
    }
}

proof fn lemma_lost(v: TrafficView, names: Seq<Seq<char>>, name: Seq<char>)
    ensures
        names.contains(name) ==> !after_losses(v, names).requested.contains(name) && !after_losses(
            v,
            names,
        ).sync.contains_key(name),
        !names.contains(name) ==> after_losses(v, names).requested.contains(name)
            == v.requested.contains(name),
        !v.requested.contains(name) ==> !after_losses(v, names).requested.contains(name),
        !v.sync.contains_key(name) ==> !after_losses(v, names).sync.contains_key(name),
    decreases names.len(),
{
    if names.len() > 0 {
        let rest = names.drop_last();
        lemma_lost(v, rest, name);
        assert(names[names.len() - 1] == names.last());
        if names.contains(name) && name != names.last() {
            let i = choose|i: int| 0 <= i < names.len() && names[i] == name;
            assert(rest[i] == name);
        }
        if rest.contains(name) {
            let i = choose|i: int| 0 <= i < rest.len() && rest[i] == name;
            assert(names[i] == name);
        }
    }
}

/// One more offer starts its aircraft where it is not held back and not already
/// asked for, and none else.
pub proof fn law_what_one_more_offer_starts(
    v: TrafficView,
    names: Seq<Seq<char>>,
    name: Seq<char>,
    now: i64,
)
    ensures
        ({
            let w = after_offers(v, names, now);
            let wanted = !w.held_back(name, now) && !w.requested.contains(name);
            &&& wanted ==> started(v, names.push(name), now) == started(v, names, now).push(name)
            &&& !wanted ==> started(v, names.push(name), now) == started(v, names, now)
            &&& started(v, Seq::empty(), now).len() == 0
        }),
{
    assert(names.push(name).drop_last() =~= names);
}

/// A client is told to stop an aircraft where a whole sync pair of it is over
/// the cap and there is a way to tell, and only so; such a pair goes nowhere, and
/// its aircraft is stopped.
pub proof fn law_when_a_client_is_told_to_stop(v: TrafficView, msg: Tree, now: i64, icao: Seq<char>)
    requires
        sync_address(msg) == Some(icao),
    ensures
        ({
            let w = settled(v, msg, true, now);
            let t = traffic_after(v, msg, true, now);
            let full = !w.forwards(icao, now);
            &&& stop_of(v, msg, true, now) is Some <==> full
            &&& full ==> stop_of(v, msg, true, now)->0 == "{\"stop_sending\":[\""@ + icao + "\"]}\n"@
            &&& full ==> forwarded(w, msg, now) == ForwardView::Nothing
            &&& full ==> t.suppressed.contains_key(icao) && t.suppressed[icao] == now
                && !t.requested.contains(icao)
            &&& !full ==> forwarded(w, msg, now) is Sync
            &&& stop_of(v, msg, false, now) is None
            &&& start_of(v, msg, false, now) is None
        }),
{
}

/// The request to start aircraft names them all; without any there is none.
pub proof fn law_what_a_start_request_says(v: TrafficView, msg: Tree, now: i64)
    ensures
        ({
            let list = started(v, offers(msg), now);
            &&& list.len() == 0 ==> start_of(v, msg, true, now) is None
            &&& list.len() > 0 ==> start_of(v, msg, true, now) == Some(
                "{\"start_sending\":"@ + quoted_list(list) + "}\n"@,
            )
        }),
{
}

} // verus!

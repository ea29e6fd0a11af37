//! The handshake that opens a connection.

use vstd::prelude::*;
use crate::geo::{Ecef, Geodetic};
use crate::json::{read_json, Json};
#[allow(unused_imports)]
use crate::json::{holds, lacks, law_fields_are_found, law_texts_are_read, parsed, Tree};
#[allow(unused_imports)]
use crate::geo::Real;
#[allow(unused_imports)]
use crate::message::listed;
use crate::state::ReceiverInfo;
use crate::text::{lists, same_text, starts_with, write_bool, write_int};
#[allow(unused_imports)]
use crate::text::{begins_with, bool_text, int_text, texts};

verus! {

/// How a client's lines are packed.
#[derive(Clone, Copy, PartialEq, Eq, Debug, Structural)]
pub enum Compression {
    Zlib2,
    Zlib,
    Plain,
}

impl Compression {
    /// The name of the mode in the handshake.
    pub open spec fn text(self) -> Seq<char> {
        match self {
            Compression::Zlib2 => "zlib2"@,
            Compression::Zlib => "zlib"@,
            Compression::Plain => "none"@,
        }
    }

    /// The name of the mode in the handshake.
    pub fn name(self) -> (r: &'static str)
        ensures
            r@ == self.text(),
    {
        match self {
            Compression::Zlib2 => "zlib2",
            Compression::Zlib => "zlib",
            Compression::Plain => "none",
        }
    }

    /// Whether the server's own lines are packed too.
    pub fn packs_downlink(self) -> (r: bool)
        ensures
            r == (self == Compression::Zlib2),
    {
        self == Compression::Zlib2
    }

    /// Whether the client's lines come in frames.
    pub fn packs_uplink(self) -> (r: bool)
        ensures
            r == (self != Compression::Plain),
    {
        self != Compression::Plain
    }
}

/// Why a connection is turned away.
#[derive(Clone, Copy, PartialEq, Eq, Debug, Structural)]
pub enum Refusal {
    /// The peer closed before it sent anything.
    Closed,
    /// The line did not end within the limit.
    TooLong,
    /// The line is no JSON document.
    NotJson,
    /// No known compression mode was offered.
    NoCompression,
    /// Latitude, longitude or altitude is missing.
    NoPosition,
}

impl Refusal {
    /// The line that tells the client, where it is told.
    pub open spec fn reply_text(self) -> Option<Seq<char>> {
        match self {
            Refusal::NoCompression => Some(
                "{\"deny\":[\"no supported compression offered\"],\"reconnect_in\":300}\n"@,
            ),
            Refusal::NoPosition => Some("{\"deny\":[\"missing position\"],\"reconnect_in\":300}\n"@),
            _ => None,
        }
    }

    /// The line that tells the client, where it is told.
    pub fn reply(self) -> (r: Option<&'static str>)
        ensures
            match r {
                Some(s) => self.reply_text() == Some(s@),
                None => self.reply_text() is None,
            },
    {
        match self {
            Refusal::NoCompression => Some(
                "{\"deny\":[\"no supported compression offered\"],\"reconnect_in\":300}\n",
            ),
            Refusal::NoPosition => Some("{\"deny\":[\"missing position\"],\"reconnect_in\":300}\n"),
            _ => None,
        }
    }

    /// The reason for the server's log.
    pub open spec fn reason_text(self) -> Seq<char> {
        match self {
            Refusal::Closed => "closed before handshake"@,
            Refusal::TooLong => "handshake line over 64 KiB"@,
            Refusal::NotJson => "handshake not JSON"@,
            Refusal::NoCompression => "client offered none of none/zlib/zlib2"@,
            Refusal::NoPosition => "handshake missing position"@,
        }
    }

    /// The reason for the server's log.
    pub fn reason(self) -> (r: &'static str)
        ensures
            r@ == self.reason_text(),
    {
        match self {
            Refusal::Closed => "closed before handshake",
            Refusal::TooLong => "handshake line over 64 KiB",
            Refusal::NotJson => "handshake not JSON",
            Refusal::NoCompression => "client offered none of none/zlib/zlib2",
            Refusal::NoPosition => "handshake missing position",
        }
    }
}

/// Ticks per second of a GPS-disciplined or free-running Radarcape.
pub const RADARCAPE_HZ: u64 = 1_000_000_000;

/// Ticks per second of an SBS receiver.
pub const SBS_HZ: u64 = 20_000_000;

/// Ticks per second of every other receiver.
pub const DEFAULT_HZ: u64 = 12_000_000;

/// Timing error (1 sigma) of a GPS-disciplined clock: 30 ns.
pub const GPS_JITTER_FS: i128 = 30_000_000;

/// Timing error (1 sigma) of any other clock: 150 ns.
pub const FREE_JITTER_FS: i128 = 150_000_000;

/// What a client says of itself.
pub struct Hello {
    pub user: String,
    pub uuid: Option<String>,
    pub privacy: bool,
    pub clock_type: String,
    /// One line on the connection for the client list.
    pub connection_info: String,
    pub geo: Geodetic,
    pub freq_hz: u64,
    pub gps: bool,
    pub jitter_fs: i128,
    pub compress: Compression,
    pub wants_results: bool,
    pub wants_stats: bool,
}

/// The compression mode for a client: the first of zlib2, zlib and none that
/// it offers.
pub open spec fn negotiated(hs: Tree) -> Option<Compression> {
    let offered = listed(hs, "compress"@);
    if offered.contains("zlib2"@) {
        Some(Compression::Zlib2)
    } else if offered.contains("zlib"@) {
        Some(Compression::Zlib)
    } else if offered.contains("none"@) {
        Some(Compression::Plain)
    } else {
        None
    }
}

/// The client's position.
pub open spec fn position(hs: Tree) -> Option<Geodetic> {
    if hs.real_at("lat"@) is Some && hs.real_at("lon"@) is Some && hs.real_at("alt"@) is Some {
        Some(
            Geodetic {
                lat_deg: hs.real_at("lat"@)->0,
                lon_deg: hs.real_at("lon"@)->0,
                alt_m: hs.real_at("alt"@)->0,
            },
        )
    } else {
        None
    }
}

/// The text in a field, or a stand-in.
pub open spec fn text_or(t: Tree, key: Seq<char>, default: Seq<char>) -> Seq<char> {
    match t.text_at(key) {
        Some(s) => s,
        None => default,
    }
}

/// The flag in a field; a missing one is off.
pub open spec fn flag(t: Tree, key: Seq<char>) -> bool {
    t.bool_at(key) == Some(true)
}

/// Ticks per second by clock type.
pub open spec fn clock_hz(clock_type: Seq<char>) -> u64 {
    if clock_type == "radarcape_gps"@ || clock_type == "radarcape"@ {
        RADARCAPE_HZ
    } else if clock_type == "sbs"@ {
        SBS_HZ
    } else {
        DEFAULT_HZ
    }
}

/// `user v<protocol> <clock> <client> tcp <compression>`.
pub open spec fn connection_text(hs: Tree, compress: Compression) -> Seq<char> {
    let version = match hs.int_at("version"@) {
        Some(v) => v as int,
        None => 0,
    };
    text_or(hs, "user"@, "anon"@) + " v"@ + int_text(version) + " "@ + text_or(
        hs,
        "clock_type"@,
        "unknown"@,
    ) + " "@ + text_or(hs, "client_version"@, "unknown"@) + " tcp "@ + compress.text()
}

impl Hello {
    /// `self` is what the handshake `hs` says, on a server that returns
    /// results where `client_results` is set.
    pub open spec fn says(self, hs: Tree, client_results: bool) -> bool {
        &&& self.user@ == text_or(hs, "user"@, "anon"@)
        &&& match self.uuid {
            Some(u) => hs.text_at("uuid"@) == Some(u@),
            None => hs.text_at("uuid"@) is None,
        }
        &&& self.privacy == flag(hs, "privacy"@)
        &&& self.clock_type@ == text_or(hs, "clock_type"@, "unknown"@)
        &&& self.connection_info@ == connection_text(hs, self.compress)
        &&& position(hs) == Some(self.geo)
        &&& self.freq_hz == clock_hz(self.clock_type@)
        &&& self.gps == begins_with(self.clock_type@, "radarcape_gps"@)
        &&& self.jitter_fs == if self.gps {
            GPS_JITTER_FS
        } else {
            FREE_JITTER_FS
        }
        &&& negotiated(hs) == Some(self.compress)
        &&& self.wants_results == (client_results && flag(hs, "return_results"@))
        &&& self.wants_stats == flag(hs, "return_stats"@)
    }

    /// The line that accepts the client.
    pub open spec fn reply_text(self) -> Seq<char> {
        "{\"compress\":\""@ + self.compress.text()
            + "\",\"reconnect_in\":300,\"selective_traffic\":true,\"heartbeat\":true,\"return_results\":"@
            + bool_text(self.wants_results) + ",\"rate_reports\":true,\"return_stats\":"@
            + bool_text(self.wants_stats)
            + ",\"motd\":\"FlightPortrait network MLAT (mlatd)\"}\n"@
    }

    /// The line that accepts the client: selective traffic and rate reports
    /// are on, since a client sends nothing until asked.
    pub fn reply(&self) -> (r: String)
        ensures
            r@ == self.reply_text(),
    {
        let mut out = "{\"compress\":\"".to_owned();
        out.append(self.compress.name());
        out.append(
            "\",\"reconnect_in\":300,\"selective_traffic\":true,\"heartbeat\":true,\"return_results\":",
        );
        out.append(write_bool(self.wants_results));
        out.append(",\"rate_reports\":true,\"return_stats\":");
        out.append(write_bool(self.wants_stats));
        out.append(",\"motd\":\"FlightPortrait network MLAT (mlatd)\"}\n");
        out
    }
}

impl Hello {
    /// The receiver that a client stands for.
    pub open spec fn stands_for(self, uid: u64, ip: String, port: u16, ecef: Ecef) -> ReceiverInfo {
        ReceiverInfo {
            user: self.user,
            uid,
            uuid: self.uuid,
            privacy: self.privacy,
            connection_info: self.connection_info,
            source_ip: ip,
            source_port: port,
            geo: self.geo,
            ecef,
            freq_hz: self.freq_hz,
            gps: self.gps,
            jitter_fs: self.jitter_fs,
        }
    }

    /// The receiver that a client stands for, on connection `uid` from `ip` and
    /// `port`; `ecef` is its position in the earth-centred frame.
    pub fn into_receiver(self, uid: u64, ip: String, port: u16, ecef: Ecef) -> (r: ReceiverInfo)
        ensures
            r == (ReceiverInfo {
                user: self.user,
                uid,
                uuid: self.uuid,
                privacy: self.privacy,
                connection_info: self.connection_info,
                source_ip: ip,
                source_port: port,
                geo: self.geo,
                ecef,
                freq_hz: self.freq_hz,
                gps: self.gps,
                jitter_fs: self.jitter_fs,
            }),
            r == self.stands_for(uid, ip, port, ecef),
    {
        ReceiverInfo {
            user: self.user,
            uid,
            uuid: self.uuid,
            privacy: self.privacy,
            connection_info: self.connection_info,
            source_ip: ip,
            source_port: port,
            geo: self.geo,
            ecef,
            freq_hz: self.freq_hz,
            gps: self.gps,
            jitter_fs: self.jitter_fs,
        }
    }
}

fn negotiate(hs: &Json) -> (r: Option<Compression>)
    ensures
        r == negotiated(hs.tree()),
{
    let offered: Vec<String> = match hs.get("compress") {
        Some(j) => j.texts_in(),
        None => Vec::new(),
    };
    assert(texts(offered@) =~= listed(hs.tree(), "compress"@));
    if lists(&offered, "zlib2") {
        Some(Compression::Zlib2)
    } else if lists(&offered, "zlib") {
        Some(Compression::Zlib)
    } else if lists(&offered, "none") {
        Some(Compression::Plain)
    } else {
        None
    }
}

fn text_or_default(hs: &Json, key: &str, default: &str) -> (r: String)
    ensures
        r@ == text_or(hs.tree(), key@, default@),
{
    match hs.text_at(key) {
        Some(s) => s,
        None => default.to_owned(),
    }
}

fn flag_at(hs: &Json, key: &str) -> (r: bool)
    ensures
        r == flag(hs.tree(), key@),
{
    match hs.bool_at(key) {
        Some(b) => b,
        None => false,
    }
}

/// Ticks per second by clock type.
pub fn ticks_per_second(clock_type: &str) -> (r: u64)
    ensures
        r == clock_hz(clock_type@),
{
    if same_text(clock_type, "radarcape_gps") || same_text(clock_type, "radarcape") {
        RADARCAPE_HZ
    } else if same_text(clock_type, "sbs") {
        SBS_HZ
    } else {
        DEFAULT_HZ
    }
}

/// `r` is what becomes of a handshake document.
pub open spec fn is_answer(hs: Tree, client_results: bool, r: Result<Hello, Refusal>) -> bool {
    match r {
        Ok(h) => h.says(hs, client_results),
        Err(Refusal::NoCompression) => negotiated(hs) is None,
        Err(Refusal::NoPosition) => negotiated(hs) is Some && position(hs) is None,
        Err(_) => false,
    }
}

/// `r` is what becomes of the first line of a connection.
pub open spec fn is_answer_to_line(
    line: Seq<u8>,
    client_results: bool,
    r: Result<Hello, Refusal>,
) -> bool {
    match read_kind(line) {
        Read::End => r == Err::<Hello, Refusal>(Refusal::Closed),
        Read::Cut => r == Err::<Hello, Refusal>(Refusal::TooLong),
        Read::Line => match parsed(line) {
            None => r == Err::<Hello, Refusal>(Refusal::NotJson),
            Some(hs) => is_answer(hs, client_results, r),
        },
    }
}

/// Judges a handshake document.
pub fn accept(hs: &Json, client_results: bool) -> (r: Result<Hello, Refusal>)
    ensures
        match r {
            Ok(h) => h.says(hs.tree(), client_results),
            Err(Refusal::NoCompression) => negotiated(hs.tree()) is None,
            Err(Refusal::NoPosition) => negotiated(hs.tree()) is Some && position(hs.tree()) is None,
            Err(_) => false,
        },
        is_answer(hs.tree(), client_results, r),
{
    let compress = match negotiate(hs) {
        Some(c) => c,
        None => return Err(Refusal::NoCompression),
    };
    let (lat_deg, lon_deg, alt_m) = match (
        hs.real_at("lat"),
        hs.real_at("lon"),
        hs.real_at("alt"),
    ) {
        (Some(lat), Some(lon), Some(alt)) => (lat, lon, alt),
        _ => return Err(Refusal::NoPosition),
    };
    let clock_type = text_or_default(hs, "clock_type", "unknown");
    let freq_hz: u64 = ticks_per_second(clock_type.as_str());
    let user = text_or_default(hs, "user", "anon");
    let gps: bool = starts_with(clock_type.as_str(), "radarcape_gps");
    let version: i64 = match hs.int_at("version") {
        Some(v) => v,
        None => 0,
    };
    let mut connection_info = user.clone();
    connection_info.append(" v");
    connection_info.append(write_int(version).as_str());
    connection_info.append(" ");
    connection_info.append(clock_type.as_str());
    connection_info.append(" ");
    connection_info.append(text_or_default(hs, "client_version", "unknown").as_str());
    connection_info.append(" tcp ");
    connection_info.append(compress.name());
    Ok(
        Hello {
            user,
            uuid: hs.text_at("uuid"),
            privacy: flag_at(hs, "privacy"),
            clock_type,
            connection_info,
            geo: Geodetic { lat_deg, lon_deg, alt_m },
            freq_hz,
            gps,
            jitter_fs: if gps {
                GPS_JITTER_FS
            } else {
                FREE_JITTER_FS
            },
            compress,
            wants_results: client_results && flag_at(hs, "return_results"),
            wants_stats: flag_at(hs, "return_stats"),
        },
    )
}

/// An accepted client stands where its document says: its latitude, longitude
/// and altitude are the numbers in the fields of those names.
pub proof fn law_a_client_stands_where_it_says(
    hs: Tree,
    client_results: bool,
    h: Hello,
    a: Real,
    b: Real,
    c: Real,
    i: Option<i64>,
    j: Option<i64>,
    k: Option<i64>,
)
    requires
        h.says(hs, client_results),
    ensures
        holds(hs, "lat"@, Tree::Number(i, Some(a))) ==> h.geo.lat_deg == a,
        holds(hs, "lon"@, Tree::Number(j, Some(b))) ==> h.geo.lon_deg == b,
        holds(hs, "alt"@, Tree::Number(k, Some(c))) ==> h.geo.alt_m == c,
        !lacks(hs, "lat"@),
        !lacks(hs, "lon"@),
        !lacks(hs, "alt"@),
{
    law_fields_are_found(hs, "lat"@, Tree::Number(i, Some(a)));
    law_fields_are_found(hs, "lon"@, Tree::Number(j, Some(b)));
    law_fields_are_found(hs, "alt"@, Tree::Number(k, Some(c)));
}

/// A document with all three numbers has a position; one that lacks any, or has
/// something else in its place, has none.
pub proof fn law_when_a_position_is_missing(hs: Tree, x: Tree, y: Tree, z: Tree)
    requires
        holds(hs, "lat"@, x) || lacks(hs, "lat"@),
        holds(hs, "lon"@, y) || lacks(hs, "lon"@),
        holds(hs, "alt"@, z) || lacks(hs, "alt"@),
    ensures
        position(hs) is Some <==> {
            &&& holds(hs, "lat"@, x) && x is Number && x->Number_1 is Some
            &&& holds(hs, "lon"@, y) && y is Number && y->Number_1 is Some
            &&& holds(hs, "alt"@, z) && z is Number && z->Number_1 is Some
        },
{
    law_fields_are_found(hs, "lat"@, x);
    law_fields_are_found(hs, "lon"@, y);
    law_fields_are_found(hs, "alt"@, z);
}

/// A client gets the best mode that it offers: zlib2 before zlib before none.
/// One that offers none of them gets none.
pub proof fn law_the_best_mode_is_taken(hs: Tree, items: Seq<Tree>)
    requires
        holds(hs, "compress"@, Tree::List(items)),
    ensures
        ({
            let best = items.contains(Tree::Text("zlib2"@));
            let good = items.contains(Tree::Text("zlib"@));
            let plain = items.contains(Tree::Text("none"@));
            &&& best ==> negotiated(hs) == Some(Compression::Zlib2)
            &&& !best && good ==> negotiated(hs) == Some(Compression::Zlib)
            &&& !best && !good && plain ==> negotiated(hs) == Some(Compression::Plain)
            &&& !best && !good && !plain ==> negotiated(hs) is None
        }),
{
    law_fields_are_found(hs, "compress"@, Tree::List(items));
    law_texts_are_read(items, "zlib2"@, Tree::Null);
    law_texts_are_read(items, "zlib"@, Tree::Null);
    law_texts_are_read(items, "none"@, Tree::Null);
}

/// A client that offers no list of modes gets none.
pub proof fn law_no_modes_no_connection(hs: Tree, v: Tree)
    requires
        lacks(hs, "compress"@) || (holds(hs, "compress"@, v) && !(v is List)),
    ensures
        negotiated(hs) is None,
{
    law_fields_are_found(hs, "compress"@, v);
}

/// What a client is called and what it asks for are the values of its fields;
/// without them it is anonymous, has no identity, hides nothing, has a clock of
/// no known kind, and asks for nothing. Results go only to those who ask, on a
/// server that returns them.
pub proof fn law_a_client_is_what_it_says(
    hs: Tree,
    client_results: bool,
    h: Hello,
    text: Seq<char>,
    on: bool,
)
    requires
        h.says(hs, client_results),
    ensures
        holds(hs, "user"@, Tree::Text(text)) ==> h.user@ == text,
        lacks(hs, "user"@) ==> h.user@ == "anon"@,
        holds(hs, "uuid"@, Tree::Text(text)) ==> h.uuid is Some && h.uuid->0@ == text,
        lacks(hs, "uuid"@) ==> h.uuid is None,
        holds(hs, "clock_type"@, Tree::Text(text)) ==> h.clock_type@ == text,
        lacks(hs, "clock_type"@) ==> h.clock_type@ == "unknown"@,
        holds(hs, "privacy"@, Tree::Bool(on)) ==> h.privacy == on,
        lacks(hs, "privacy"@) ==> !h.privacy,
        holds(hs, "return_stats"@, Tree::Bool(on)) ==> h.wants_stats == on,
        lacks(hs, "return_stats"@) ==> !h.wants_stats,
        holds(hs, "return_results"@, Tree::Bool(on)) ==> h.wants_results == (on && client_results),
        lacks(hs, "return_results"@) || !client_results ==> !h.wants_results,
        negotiated(hs) == Some(h.compress),
{
    law_fields_are_found(hs, "user"@, Tree::Text(text));
    law_fields_are_found(hs, "uuid"@, Tree::Text(text));
    law_fields_are_found(hs, "clock_type"@, Tree::Text(text));
    law_fields_are_found(hs, "privacy"@, Tree::Bool(on));
    law_fields_are_found(hs, "return_stats"@, Tree::Bool(on));
    law_fields_are_found(hs, "return_results"@, Tree::Bool(on));
}

/// A Radarcape ticks at 1 GHz, an SBS receiver at 20 MHz, everything else at 12
/// MHz. A clock type that begins with `radarcape_gps` is disciplined, and good
/// to 30 ns; any other is good to 150 ns.
pub proof fn law_clocks_by_type(hs: Tree, client_results: bool, h: Hello)
    requires
        h.says(hs, client_results),
    ensures
        ({
            let c = h.clock_type@;
            &&& c == "radarcape"@ || c == "radarcape_gps"@ ==> h.freq_hz == 1_000_000_000
            &&& c == "sbs"@ ==> h.freq_hz == 20_000_000
            &&& c != "radarcape"@ && c != "radarcape_gps"@ && c != "sbs"@ ==> h.freq_hz == 12_000_000
            &&& h.gps <==> c.len() >= 13 && c.subrange(0, 13) == "radarcape_gps"@
            &&& h.gps ==> h.jitter_fs == 30_000_000
            &&& !h.gps ==> h.jitter_fs == 150_000_000
        }),
{
    reveal_strlit("radarcape_gps");
    reveal_strlit("radarcape");
    reveal_strlit("sbs");
    assert("sbs"@.len() != "radarcape"@.len());
}

/// The line on a connection names its user, protocol, clock, client and mode.
pub proof fn law_connections_are_described(
    hs: Tree,
    client_results: bool,
    h: Hello,
    version: i64,
    r: Option<Real>,
    client: Seq<char>,
)
    requires
        h.says(hs, client_results),
        holds(hs, "version"@, Tree::Number(Some(version), r)) || (lacks(hs, "version"@) && version
            == 0),
        holds(hs, "client_version"@, Tree::Text(client)) || (lacks(hs, "client_version"@) && client
            == "unknown"@),
    ensures
        h.connection_info@ == h.user@ + " v"@ + int_text(version as int) + " "@ + h.clock_type@
            + " "@ + client + " tcp "@ + match h.compress {
            Compression::Zlib2 => "zlib2"@,
            Compression::Zlib => "zlib"@,
            Compression::Plain => "none"@,
        },
{
    law_fields_are_found(hs, "version"@, Tree::Number(Some(version), r));
    law_fields_are_found(hs, "client_version"@, Tree::Text(client));
}

/// A read line: empty at the end of the stream, and without its newline only
/// where the read limit cut it.
#[derive(Clone, Copy, PartialEq, Eq, Debug, Structural)]
pub enum Read {
    End,
    Cut,
    Line,
}

/// What a read from a client gave.
pub open spec fn read_kind(line: Seq<u8>) -> Read {
    if line.len() == 0 {
        Read::End
    } else if line.last() != 10 {
        Read::Cut
    } else {
        Read::Line
    }
}

/// What a read from a client gave.
pub fn classify(line: &[u8]) -> (r: Read)
    ensures
        r == read_kind(line@),
{
    if line.len() == 0 {
        Read::End
    } else if line[line.len() - 1] != 10 {
        Read::Cut
    } else {
        Read::Line
    }
}

/// Judges the first line of a connection as it was read.
pub fn handshake(line: &[u8], client_results: bool) -> (r: Result<Hello, Refusal>)
    ensures
        match r {
            Ok(h) => read_kind(line@) == Read::Line && parsed(line@) is Some && h.says(
                parsed(line@)->0,
                client_results,
            ),
            Err(Refusal::Closed) => read_kind(line@) == Read::End,
            Err(Refusal::TooLong) => read_kind(line@) == Read::Cut,
            Err(Refusal::NotJson) => read_kind(line@) == Read::Line && parsed(line@) is None,
            Err(Refusal::NoCompression) => read_kind(line@) == Read::Line && parsed(line@) is Some
                && negotiated(parsed(line@)->0) is None,
            Err(Refusal::NoPosition) => read_kind(line@) == Read::Line && parsed(line@) is Some
                && negotiated(parsed(line@)->0) is Some && position(parsed(line@)->0) is None,
        },
        is_answer_to_line(line@, client_results, r),
{
    match classify(line) {
        Read::End => Err(Refusal::Closed),
        Read::Cut => Err(Refusal::TooLong),
        Read::Line => match read_json(line) {
            Some(hs) => accept(&hs, client_results),
            None => Err(Refusal::NotJson),
        },
    }
}


/// The receiver of an accepted client stands at the latitude, longitude and
/// altitude of its document, has its name and its clock, and the connection that
/// it came by.
pub proof fn law_a_receiver_is_its_client(
    hs: Tree,
    client_results: bool,
    h: Hello,
    uid: u64,
    ip: String,
    port: u16,
    ecef: Ecef,
    a: Real,
    b: Real,
    c: Real,
    i: Option<i64>,
    j: Option<i64>,
    k: Option<i64>,
)
    requires
        h.says(hs, client_results),
        holds(hs, "lat"@, Tree::Number(i, Some(a))),
        holds(hs, "lon"@, Tree::Number(j, Some(b))),
        holds(hs, "alt"@, Tree::Number(k, Some(c))),
    ensures
        ({
            let r = h.stands_for(uid, ip, port, ecef);
            &&& r.geo.lat_deg == a
            &&& r.geo.lon_deg == b
            &&& r.geo.alt_m == c
            &&& r.ecef == ecef
            &&& r.user == h.user
            &&& r.uuid == h.uuid
            &&& r.uid == uid
            &&& r.source_ip == ip
            &&& r.source_port == port
            &&& r.privacy == h.privacy
            &&& r.connection_info == h.connection_info
            &&& r.freq_hz == h.freq_hz
            &&& r.gps == h.gps
            &&& r.jitter_fs == h.jitter_fs
        }),
{
    law_a_client_stands_where_it_says(hs, client_results, h, a, b, c, i, j, k);
}

/// What a read gave: nothing at the end of the stream, a whole line where it ends
/// in a newline, and a cut one else.
pub proof fn law_what_a_read_gave(line: Seq<u8>)
    ensures
        line.len() == 0 ==> read_kind(line) == Read::End,
        line.len() > 0 && line[line.len() - 1] == 10 ==> read_kind(line) == Read::Line,
        line.len() > 0 && line[line.len() - 1] != 10 ==> read_kind(line) == Read::Cut,
{
}

/// A client that offers no known mode, or has no position, is told why and when
/// to come back; nobody else is.
pub proof fn law_what_a_refused_client_is_told()
    ensures
        Refusal::NoCompression.reply_text() == Some(
            "{\"deny\":[\"no supported compression offered\"],\"reconnect_in\":300}\n"@,
        ),
        Refusal::NoPosition.reply_text() == Some(
            "{\"deny\":[\"missing position\"],\"reconnect_in\":300}\n"@,
        ),
        Refusal::Closed.reply_text() is None,
        Refusal::TooLong.reply_text() is None,
        Refusal::NotJson.reply_text() is None,
{
}


/// A client is accepted where its first line is whole, is a document, offers a
/// known mode and has a position, and only so. Else it is refused for the first
/// of these that is missing.
pub proof fn law_who_is_accepted(
    line: Seq<u8>,
    client_results: bool,
    r: Result<Hello, Refusal>,
    hs: Tree,
)
    requires
        is_answer_to_line(line, client_results, r),
        parsed(line) is Some ==> parsed(line)->0 == hs,
    ensures
        ({
            let whole = line.len() > 0 && line[line.len() - 1] == 10;
            let known = parsed(line) is Some;
            &&& r is Ok <==> whole && known && negotiated(hs) is Some && position(hs) is Some
            &&& line.len() == 0 ==> r == Err::<Hello, Refusal>(Refusal::Closed)
            &&& line.len() > 0 && !whole ==> r == Err::<Hello, Refusal>(Refusal::TooLong)
            &&& whole && !known ==> r == Err::<Hello, Refusal>(Refusal::NotJson)
            &&& whole && known && negotiated(hs) is None ==> r == Err::<Hello, Refusal>(
                Refusal::NoCompression,
            )
            &&& whole && known && negotiated(hs) is Some && position(hs) is None ==> r == Err::<
                Hello,
                Refusal,
            >(Refusal::NoPosition)
            &&& r is Ok ==> r->Ok_0.says(hs, client_results)
        }),
{
}

} // verus!

//! The lines that the server writes: rows, feed messages and messages to a
//! client.
//!
//! Coordinates and distances come as text that is already rounded.

use vstd::prelude::*;
use crate::calendar::sbs_datetime;
#[allow(unused_imports)]
use crate::calendar::{clock_text, date_text};
use crate::clock::{in_fs, NANOSECOND_FS};
use crate::state::slots::RxStats;
use crate::text::{join, upper, write_digits, write_icao, write_int, write_stamp, write_tenths};
#[allow(unused_imports)]
use crate::text::{
    ascii_upper, digits, icao_text, int_text, joined, stamp_text, tenths, texts,
};

verus! {

/// What a row says of one fix, beside its position.
pub struct Sighting {
    pub icao: u32,
    pub stamp_fs: i128,
    pub alt_ft: i32,
    /// The receivers of the solve.
    pub users: Vec<String>,
}

/// A row of the results file: the stamp, the address, two unused columns, the
/// position, the altitude, the error, the receivers twice, their names, the
/// degrees of freedom, and a last unused column.
pub open spec fn csv_text(
    stamp_fs: int,
    icao: u32,
    alt_ft: int,
    users: Seq<Seq<char>>,
    lat: Seq<char>,
    lon: Seq<char>,
    err: Seq<char>,
) -> Seq<char> {
    let n = digits(users.len(), 10);
    let spare = digits(
        if users.len() < 4 {
            0
        } else {
            (users.len() - 4) as nat
        },
        10,
    );
    stamp_text(stamp_fs) + ","@ + icao_text(icao) + ",,,"@ + lat + ","@ + lon + ","@ + int_text(
        alt_ft,
    ) + ","@ + err + ","@ + n + ","@ + n + ",\""@ + joined(users, ","@) + "\","@ + spare + ",\n"@
}

/// A row of the self-truth file: the stamp, the address, the distance from
/// the claimed position, the estimated error and the receivers.
pub open spec fn truth_text(
    stamp_fs: int,
    icao: u32,
    off: Seq<char>,
    err: Seq<char>,
    n: nat,
) -> Seq<char> {
    stamp_text(stamp_fs) + ","@ + icao_text(icao) + ","@ + off + ","@ + err + ","@ + digits(n, 10)
        + "\n"@
}

/// A BaseStation position message.
pub open spec fn sbs_text(
    stamp_fs: int,
    icao: u32,
    alt_ft: int,
    lat: Seq<char>,
    lon: Seq<char>,
) -> Seq<char> {
    let d = date_text(stamp_fs);
    let t = clock_text(stamp_fs);
    "MSG,3,1,1,"@ + ascii_upper(icao_text(icao)) + ",1,"@ + d + ","@ + t + ","@ + d + ","@ + t
        + ",,"@ + int_text(alt_ft) + ",,,"@ + lat + ","@ + lon + ",,,,,,0\r\n"@
}

/// A result message to a client.
pub open spec fn result_text(
    stamp_fs: int,
    icao: u32,
    alt_ft: int,
    n: nat,
    lat: Seq<char>,
    lon: Seq<char>,
) -> Seq<char> {
    "{\"result\":{\"@\":"@ + stamp_text(stamp_fs) + ",\"addr\":\""@ + icao_text(icao)
        + "\",\"lat\":"@ + lat + ",\"lon\":"@ + lon + ",\"alt\":"@ + int_text(alt_ft)
        + ",\"callsign\":null,\"squawk\":null,\"hdop\":0.0,\"vdop\":0.0,\"tdop\":0.0,\"gdop\":0.0,\"nstations\":"@
        + digits(n, 10) + "}}\n"@
}

/// A heartbeat to a client.
pub open spec fn heartbeat_text(now: int) -> Seq<char> {
    "{\"heartbeat\":{\"server_time\":"@ + stamp_text(now * NANOSECOND_FS) + "}}\n"@
}

/// How a receiver does, for its client: a receiver that is left out of solves
/// is timed out for 60.
pub open spec fn stats_text(peers: nat, quarantined: bool, outliers: nat) -> Seq<char> {
    "{\"stats\":{\"peer_count\":"@ + digits(peers, 10) + ",\"bad_sync_timeout\":"@ + digits(
        if quarantined {
            60
        } else {
            0
        },
        10,
    ) + ",\"outlier_percent\":"@ + tenths(outliers) + "}}\n"@
}

impl Sighting {
    /// A row of the results file.
    pub fn csv_row(&self, lat: &str, lon: &str, err: &str) -> (r: String)
        ensures
            r@ == csv_text(
                self.stamp_fs as int,
                self.icao,
                self.alt_ft as int,
                texts(self.users@),
                lat@,
                lon@,
                err@,
            ),
    {
        let n: usize = self.users.len();
        let count = write_digits(n as u128, 10);
        let spare: usize = if n < 4 {
            0
        } else {
            n - 4
        };
        let mut out = write_stamp(self.stamp_fs);
        out.append(",");
        out.append(write_icao(self.icao).as_str());
        out.append(",,,");
        out.append(lat);
        out.append(",");
        out.append(lon);
        out.append(",");
        out.append(write_int(self.alt_ft as i64).as_str());
        out.append(",");
        out.append(err);
        out.append(",");
        out.append(count.as_str());
        out.append(",");
        out.append(count.as_str());
        out.append(",\"");
        out.append(join(&self.users, ",").as_str());
        out.append("\",");
        out.append(write_digits(spare as u128, 10).as_str());
        out.append(",\n");
        out
    }

    /// A row of the self-truth file.
    pub fn truth_row(&self, off: &str, err: &str) -> (r: String)
        ensures
            r@ == truth_text(
                self.stamp_fs as int,
                self.icao,
                off@,
                err@,
                self.users@.len(),
            ),
    {
        let mut out = write_stamp(self.stamp_fs);
        out.append(",");
        out.append(write_icao(self.icao).as_str());
        out.append(",");
        out.append(off);
        out.append(",");
        out.append(err);
        out.append(",");
        out.append(write_digits(self.users.len() as u128, 10).as_str());
        out.append("\n");
        out
    }

    /// A BaseStation position message.
    pub fn sbs_line(&self, lat: &str, lon: &str) -> (r: String)
        ensures
            r@ == sbs_text(self.stamp_fs as int, self.icao, self.alt_ft as int, lat@, lon@),
    {
        let (d, t) = sbs_datetime(self.stamp_fs);
        let mut out = "MSG,3,1,1,".to_owned();
        out.append(upper(write_icao(self.icao).as_str()).as_str());
        out.append(",1,");
        out.append(d.as_str());
        out.append(",");
        out.append(t.as_str());
        out.append(",");
        out.append(d.as_str());
        out.append(",");
        out.append(t.as_str());
        out.append(",,");
        out.append(write_int(self.alt_ft as i64).as_str());
        out.append(",,,");
        out.append(lat);
        out.append(",");
        out.append(lon);
        out.append(",,,,,,0\r\n");
        out
    }

    /// A result message to a client.
    pub fn result_line(&self, lat: &str, lon: &str) -> (r: String)
        ensures
            r@ == result_text(
                self.stamp_fs as int,
                self.icao,
                self.alt_ft as int,
                self.users@.len(),
                lat@,
                lon@,
            ),
    {
        let mut out = "{\"result\":{\"@\":".to_owned();
        out.append(write_stamp(self.stamp_fs).as_str());
        out.append(",\"addr\":\"");
        out.append(write_icao(self.icao).as_str());
        out.append("\",\"lat\":");
        out.append(lat);
        out.append(",\"lon\":");
        out.append(lon);
        out.append(",\"alt\":");
        out.append(write_int(self.alt_ft as i64).as_str());
        out.append(
            ",\"callsign\":null,\"squawk\":null,\"hdop\":0.0,\"vdop\":0.0,\"tdop\":0.0,\"gdop\":0.0,\"nstations\":",
        );
        out.append(write_digits(self.users.len() as u128, 10).as_str());
        out.append("}}\n");
        out
    }
}

/// A heartbeat to a client, at `now` on the output clock.
pub fn heartbeat_line(now: i64) -> (r: String)
    ensures
        r@ == heartbeat_text(now as int),
{
    let mut out = "{\"heartbeat\":{\"server_time\":".to_owned();
    out.append(write_stamp(in_fs(now)).as_str());
    out.append("}}\n");
    out
}

/// How a receiver does, for its client.
pub fn stats_line(st: &RxStats) -> (r: String)
    requires
        st.score.is_fair(),
    ensures
        r@ == stats_text(
            st.peers as nat,
            st.quarantined,
            st.score.percent_tenths() as nat,
        ),
{
    let mut out = "{\"stats\":{\"peer_count\":".to_owned();
    out.append(write_digits(st.peers as u128, 10).as_str());
    out.append(",\"bad_sync_timeout\":");
    let timeout: u128 = if st.quarantined {
        60
    } else {
        0
    };
    out.append(write_digits(timeout, 10).as_str());
    out.append(",\"outlier_percent\":");
    out.append(write_tenths(st.score.find_percent_tenths()).as_str());
    out.append("}}\n");
    out
}

} // verus!

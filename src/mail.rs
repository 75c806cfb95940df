//! A captured mail record, the invocation it was captured under, and the
//! clock that keeps the identities of successive records distinct.
use vstd::prelude::*;
use crate::decimal::append_signed;
use crate::decimal::append_decimal;
use crate::names::{lemma_file_name_injective, mail_file_name};

verus! {

/// The options that the capturing program was invoked with, kept verbatim
/// with each record.
#[derive(Clone, Debug)]
pub struct CliOptions {
    /// Non-standard debug output.
    pub debug: bool,
    /// Ignore dots alone on lines by themselves in the incoming message.
    pub ignore_dots: bool,
    /// Read the message for the recipient list.
    pub inline_recipients: bool,
    /// Addresses to send mail to.
    pub addresses: Vec<String>,
    /// A mail file to dump instead of capturing one.
    pub dump: Option<String>,
}

/// A "sent" mail.
#[derive(Clone, Debug)]
pub struct Mail {
    /// The options under which the mail was captured.
    pub cli_options: CliOptions,
    /// The id of the process that captured the mail.
    pub pid: i32,
    /// The id of that process's parent.
    pub ppid: i32,
    /// The unparsed message.
    pub raw_body: Vec<u8>,
    /// Microseconds since the UNIX epoch at which the mail arrived.
    pub timestamp_us: u128,
}

/// The stamp that follows `last` when the clock reads `now_us`: the reading
/// itself, unless that would not come after the last stamp issued.
pub open spec fn next_stamp_value(last: Option<u128>, now_us: u128) -> u128 {
    match last {
        Some(l) => if now_us > l {
            now_us
        } else {
            (l + 1) as u128
        },
        None => now_us,
    }
}

/// `issued` is a run of stamps that one clock gave out one after another,
/// each for the clock reading at the same place in `nows`.
pub open spec fn is_stamp_run(issued: Seq<u128>, nows: Seq<u128>) -> bool {
    &&& issued.len() == nows.len()
    &&& forall|k: int|
        0 <= k < issued.len() - 1 ==> issued[k] != u128::MAX && #[trigger] issued[k + 1]
            == next_stamp_value(Some(issued[k]), nows[k + 1])
}

/// Of the records made one after another with one clock, any two have
/// distinct file names, whatever process ids they carry: the later stamp is
/// the larger.
pub proof fn lemma_sequential_names_distinct(
    issued: Seq<u128>,
    nows: Seq<u128>,
    i: int,
    j: int,
    ppid_i: int,
    pid_i: int,
    ppid_j: int,
    pid_j: int,
)
    requires
        is_stamp_run(issued, nows),
        0 <= i < j < issued.len(),
    ensures
        issued[i] < issued[j],
        mail_file_name(issued[i] as nat, ppid_i, pid_i) != mail_file_name(
            issued[j] as nat,
            ppid_j,
            pid_j,
        ),
    decreases j - i,
{
    let k = j - 1;
    assert(issued[k + 1] == next_stamp_value(Some(issued[k]), nows[k + 1]));
    if i < j - 1 {
        lemma_sequential_names_distinct(issued, nows, i, j - 1, ppid_i, pid_i, ppid_j, pid_j);
    }
    if mail_file_name(issued[i] as nat, ppid_i, pid_i) == mail_file_name(
        issued[j] as nat,
        ppid_j,
        pid_j,
    ) {
        lemma_file_name_injective(issued[i] as nat, ppid_i, pid_i, issued[j] as nat, ppid_j, pid_j);
    }
}

/// Issues strictly increasing microsecond stamps from clock readings, so that
/// records made one after another in a process never share a timestamp, however
/// coarse the clock or quick the succession.
#[derive(Debug)]
pub struct UniqueClock {
    last: Option<u128>,
}

impl UniqueClock {
    /// The last stamp issued, if any.
    pub closed spec fn last_stamp(&self) -> Option<u128> {
        self.last
    }

    /// A clock that has issued no stamp yet.
    pub fn new() -> (r: UniqueClock)
        ensures
            r.last_stamp() == None::<u128>,
    {
        UniqueClock { last: None }
    }

    /// Whether the clock has issued the largest stamp there is, and can issue no more.
    pub fn exhausted(&self) -> (r: bool)
        ensures
            r == (self.last_stamp() == Some(u128::MAX)),
    {
        match self.last {
            Some(l) => l == u128::MAX,
            None => false,
        }
    }

    /// Issues the stamp for a clock reading of `now_us`.
    pub fn next_stamp(&mut self, now_us: u128) -> (t: u128)
        requires
            old(self).last_stamp() != Some(u128::MAX),
        ensures
            t == next_stamp_value(old(self).last_stamp(), now_us),
            t >= now_us,
            old(self).last_stamp() matches Some(l) ==> t > l,
            final(self).last_stamp() == Some(t),
    {
        let t = match self.last {
            Some(l) => if now_us > l {
                now_us
            } else {
                l + 1
            },
            None => now_us,
        };
        self.last = Some(t);
        t
    }
}

/// Relies on nix::unistd::Pid::this (getpid): the id of the calling process.
#[verifier::external_body]
fn current_pid() -> (r: i32) {
    nix::unistd::Pid::this().as_raw()
}

/// Relies on nix::unistd::Pid::parent (getppid): the id of the calling process's parent.
#[verifier::external_body]
fn parent_pid() -> (r: i32) {
    nix::unistd::Pid::parent().as_raw()
}

impl Mail {
    /// A record of the given parts, as read back from a store.
    pub fn from_parts(
        cli_options: CliOptions,
        raw_body: Vec<u8>,
        pid: i32,
        ppid: i32,
        timestamp_us: u128,
    ) -> (r: Mail)
        ensures
            r.cli_options == cli_options,
            r.raw_body == raw_body,
            r.pid == pid,
            r.ppid == ppid,
            r.timestamp_us == timestamp_us,
    {
        Mail { cli_options, pid, ppid, raw_body, timestamp_us }
    }

    /// Captures a mail now: `now_us` is the wall clock's reading in
    /// microseconds since the UNIX epoch, and `clock` turns it into a stamp
    /// that no earlier record of this clock has. The process ids are those of
    /// the calling process and its parent.
    pub fn new(cli_options: CliOptions, raw_body: Vec<u8>, clock: &mut UniqueClock, now_us: u128) -> (r: Mail)
        requires
            old(clock).last_stamp() != Some(u128::MAX),
        ensures
            r.cli_options == cli_options,
            r.raw_body == raw_body,
            r.timestamp_us == next_stamp_value(old(clock).last_stamp(), now_us),
            final(clock).last_stamp() == Some(r.timestamp_us),
    {
        let timestamp_us = clock.next_stamp(now_us);
        Mail { cli_options, raw_body, pid: current_pid(), ppid: parent_pid(), timestamp_us }
    }

    /// The name of the file that holds this record in a store:
    /// `trapmail_<timestamp_us>_<ppid>_<pid>.json`.
    pub fn file_name(&self) -> (r: String)
        ensures
            r@ == mail_file_name(self.timestamp_us as nat, self.ppid as int, self.pid as int),
    {
        proof {
            reveal_strlit("trapmail_");
            reveal_strlit("_");
            reveal_strlit(".json");
        }
        let mut s = String::from_str("trapmail_");
        append_decimal(&mut s, self.timestamp_us);
        s.append("_");
        append_signed(&mut s, self.ppid);
        s.append("_");
        append_signed(&mut s, self.pid);
        s.append(".json");
        assert(s@ =~= mail_file_name(self.timestamp_us as nat, self.ppid as int, self.pid as int));
        s
    }
}

} // verus!

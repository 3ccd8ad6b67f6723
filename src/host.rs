use vstd::prelude::*;
use crate::text::{decimal, decimal_string};

verus! {

broadcast use vstd::string::group_string_axioms;

/// Port used where none is given or the given one cannot be read.
pub const DEFAULT_PORT: u16 = 22;

/// Reachability state of one host record.
#[derive(Clone, Copy, PartialEq, Eq, Structural, Debug)]
pub enum HostStatus {
    /// Never probed.
    Unknown,
    /// A probe is under way.
    Checking,
    /// Reachable, with its round-trip latency in microseconds.
    Up(u64),
    /// The last probe failed.
    Down,
}

/// One remote host of the directory.
#[derive(Clone, Debug)]
pub struct Host {
    pub alias: String,
    pub hostname: String,
    pub user: String,
    pub port: u16,
    pub identity_file: Option<String>,
    pub group: String,
    pub status: HostStatus,
}

/// A host record as plain values.
pub struct HostRec {
    pub alias: Seq<char>,
    pub hostname: Seq<char>,
    pub user: Seq<char>,
    pub port: u16,
    pub identity_file: Option<Seq<char>>,
    pub group: Seq<char>,
    pub status: HostStatus,
}

pub open spec fn opt_view(o: Option<String>) -> Option<Seq<char>> {
    match o {
        Some(s) => Some(s@),
        None => None,
    }
}

impl View for Host {
    type V = HostRec;

    open spec fn view(&self) -> HostRec {
        HostRec {
            alias: self.alias@,
            hostname: self.hostname@,
            user: self.user@,
            port: self.port,
            identity_file: opt_view(self.identity_file),
            group: self.group@,
            status: self.status,
        }
    }
}

/// The records of a sequence of hosts.
pub open spec fn recs(v: Seq<Host>) -> Seq<HostRec> {
    v.map_values(|h: Host| h@)
}

/// A latency in microseconds as whole milliseconds, a tie going to the even neighbour.
pub open spec fn rounded_ms(us: nat) -> nat {
    let ms = us / 1000;
    let rem = us % 1000;
    if rem > 500 || (rem == 500 && ms % 2 == 1) {
        ms + 1
    } else {
        ms
    }
}

/// Short text for a status.
pub open spec fn status_text(s: HostStatus) -> Seq<char> {
    match s {
        HostStatus::Unknown => "?"@,
        HostStatus::Checking => "..."@,
        HostStatus::Up(_) => "UP"@,
        HostStatus::Down => "DOWN"@,
    }
}

/// Latency text for a status.
pub open spec fn rtt_text(s: HostStatus) -> Seq<char> {
    match s {
        HostStatus::Up(us) => decimal(rounded_ms(us as nat)) + "ms"@,
        _ => "\u{2014}"@,
    }
}

/// The arguments of the remote-shell command that reaches `h`.
pub open spec fn ssh_args(h: HostRec) -> Seq<Seq<char>> {
    let a = seq!["ssh"@];
    let a = if h.port != DEFAULT_PORT {
        a + seq!["-p"@, decimal(h.port as nat)]
    } else {
        a
    };
    let a = match h.identity_file {
        Some(k) => a + seq!["-i"@, k],
        None => a,
    };
    if h.user.len() > 0 {
        a.push(h.user + "@"@ + h.hostname)
    } else {
        a.push(h.hostname)
    }
}

/// How many records are up, and how many down.
pub open spec fn count_status(hs: Seq<HostRec>, n: int) -> (nat, nat)
    decreases n,
{
    if n <= 0 {
        (0, 0)
    } else {
        let c = count_status(hs, n - 1);
        match hs[n - 1].status {
            HostStatus::Up(_) => ((c.0 + 1) as nat, c.1),
            HostStatus::Down => (c.0, (c.1 + 1) as nat),
            _ => c,
        }
    }
}

/// The number of records that are up and the number that are down.
pub fn status_counts(hosts: &Vec<Host>) -> (r: (usize, usize))
    ensures
        (r.0 as nat, r.1 as nat) == count_status(recs(hosts@), hosts.len() as int),
{
    let mut up: usize = 0;
    let mut down: usize = 0;
    let mut i: usize = 0;
    while i < hosts.len()
        invariant
            i <= hosts.len(),
            up + down <= i,
            (up as nat, down as nat) == count_status(recs(hosts@), i as int),
        decreases hosts.len() - i,
    {
        assert(recs(hosts@)[i as int] == hosts@[i as int]@);
        match hosts[i].status {
            HostStatus::Up(_) => {
                up = up + 1;
            },
            HostStatus::Down => {
                down = down + 1;
            },
            _ => {},
        }
        i = i + 1;
    }
    (up, down)
}

impl Host {
    pub fn status_label(&self) -> (r: &'static str)
        ensures
            r@ == status_text(self.status),
    {
        match &self.status {
            HostStatus::Unknown => "?",
            HostStatus::Checking => "...",
            HostStatus::Up(_) => "UP",
            HostStatus::Down => "DOWN",
        }
    }

    pub fn rtt_label(&self) -> (r: String)
        ensures
            r@ == rtt_text(self.status),
    {
        match &self.status {
            HostStatus::Up(us) => {
                let ms = *us / 1000;
                let rem = *us % 1000;
                let shown = if rem > 500 || (rem == 500 && ms % 2 == 1) {
                    ms + 1
                } else {
                    ms
                };
                let mut r = decimal_string(shown);
                r.append("ms");
                r
            },
            _ => "\u{2014}".to_owned(),
        }
    }

    pub fn ssh_command(&self) -> (r: Vec<String>)
        ensures
            r.len() == ssh_args(self@).len(),
            forall|i: int| 0 <= i < r.len() ==> #[trigger] r[i]@ == ssh_args(self@)[i],
    {
        let ghost h = self@;
        let mut args: Vec<String> = Vec::new();
        args.push("ssh".to_owned());
        let ghost a1 = seq!["ssh"@];
        let ghost a2 = if h.port != DEFAULT_PORT {
            a1 + seq!["-p"@, decimal(h.port as nat)]
        } else {
            a1
        };
        if self.port != DEFAULT_PORT {
            args.push("-p".to_owned());
            args.push(decimal_string(self.port as u64));
        }
        assert(args.len() == a2.len() && forall|i: int| 0 <= i < args.len() ==> #[trigger] args[i]@ == a2[i]);
        let ghost a3 = match h.identity_file {
            Some(k) => a2 + seq!["-i"@, k],
            None => a2,
        };
        match &self.identity_file {
            Some(key) => {
                args.push("-i".to_owned());
                args.push(key.clone());
            },
            None => {},
        }
        assert(args.len() == a3.len() && forall|i: int| 0 <= i < args.len() ==> #[trigger] args[i]@ == a3[i]);
        if !self.user.as_str().is_empty() {
            let mut target = self.user.clone();
            target.append("@");
            target.append(self.hostname.as_str());
            args.push(target);
        } else {
            args.push(self.hostname.clone());
        }
        args
    }
}

} // verus!

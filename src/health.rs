use vstd::prelude::*;
use crate::host::{Host, HostRec, HostStatus, recs};
use crate::config::next_nl;
use crate::text::{
    all_digits, chars_of, contains_text, digits_value, find_char, has_sub, last_char, next_char,
    slice_chars, trim, trim_range,
};

verus! {

broadcast use vstd::string::group_string_axioms;

/// The records are those of `before` with only their statuses changed.
pub open spec fn same_records_but_status(before: Seq<HostRec>, after: Seq<HostRec>) -> bool {
    &&& before.len() == after.len()
    &&& forall|i: int|
        0 <= i < before.len() ==> #[trigger] after[i] == (HostRec {
            status: after[i].status,
            ..before[i]
        })
}

/// A status change that the probe cycle allows: a probe starts, or a running one ends.
pub open spec fn valid_transition(a: HostStatus, b: HostStatus) -> bool {
    ||| (!(a is Checking) && b is Checking)
    ||| (a is Checking && (b is Up || b is Down))
}

/// The characters of a probe summary line that hold the figures: what follows the last
/// `=`, white space taken off.
pub open spec fn figures_of(line: Seq<char>) -> Seq<char> {
    trim(line.skip(last_char(line, '=', line.len() as int) + 1))
}

/// The second `/`-separated field of `v`, white space taken off.
pub open spec fn second_field(v: Seq<char>) -> Seq<char> {
    let i = next_char(v, '/', 0);
    trim(v.subrange(i + 1, next_char(v, '/', i + 1)))
}

/// The line is the summary line: it holds `avg` and a `/`.
pub open spec fn is_summary_line(line: Seq<char>) -> bool {
    has_sub(line, "avg"@) && next_char(line, '/', 0) < line.len()
}

/// Microseconds written by up to three fractional digits of a millisecond figure.
pub open spec fn frac_us(f: Seq<char>) -> nat {
    if f.len() >= 3 {
        digits_value(f.take(3))
    } else if f.len() == 2 {
        digits_value(f) * 10
    } else if f.len() == 1 {
        digits_value(f) * 100
    } else {
        0
    }
}

/// A millisecond figure `digits[.digits]` (at least one digit) as whole microseconds,
/// if it fits in a `u64`.
pub open spec fn parse_ms_figure(s: Seq<char>) -> Option<u64> {
    let d = next_char(s, '.', 0);
    let ip = s.take(d);
    let fp = if d < s.len() {
        s.skip(d + 1)
    } else {
        Seq::empty()
    };
    let us = digits_value(ip) * 1000 + frac_us(fp);
    if ip.len() + fp.len() > 0 && all_digits(ip) && all_digits(fp) && us <= u64::MAX {
        Some(us as u64)
    } else {
        None
    }
}

/// The average latency that the probe output `s` reports from position `pos` on: the
/// figure of the first summary line, when it has one.
pub open spec fn ping_rtt(s: Seq<char>, pos: int) -> Option<u64>
    decreases s.len() - pos,
{
    if pos < 0 || pos > s.len() {
        None
    } else {
        let e = next_nl(s, pos);
        let line = s.subrange(pos, e);
        if is_summary_line(line) && next_char(figures_of(line), '/', 0) < figures_of(line).len() {
            parse_ms_figure(second_field(figures_of(line)))
        } else if e < pos || e >= s.len() {
            None
        } else {
            ping_rtt(s, e + 1)
        }
    }
}

/// The status that a finished probe leaves: `Down` on failure; on success `Up`, with the
/// latency reported in `output` or else the measured `elapsed_us`.
pub open spec fn probe_result(success: bool, output: Seq<char>, elapsed_us: u64) -> HostStatus {
    if !success {
        HostStatus::Down
    } else {
        match ping_rtt(output, 0) {
            Some(us) => HostStatus::Up(us),
            None => HostStatus::Up(elapsed_us),
        }
    }
}

/// Reads the millisecond figure `v` as whole microseconds.
pub fn parse_ms_value(v: &Vec<char>) -> (r: Option<u64>)
    ensures
        r == parse_ms_figure(v@),
{
    let d = find_char(v, '.', 0);
    let ghost s = v@;
    let ghost ip = s.take(d as int);
    let ghost fp = if d < s.len() { s.skip(d + 1) } else { Seq::<char>::empty() };
    let mut ival: u128 = 0;
    let mut k: usize = 0;
    let cap: u128 = 0x1_0000_0000_0000_0000;
    while k < d
        invariant
            k <= d <= v.len(),
            s == v@,
            ip == s.take(d as int),
            d as int == next_char(s, '.', 0),
            fp == (if d < s.len() { s.skip(d + 1) } else { Seq::<char>::empty() }),
            all_digits(s.take(k as int)),
            ival as nat == if digits_value(s.take(k as int)) < cap { digits_value(s.take(k as int)) } else { cap as nat },
            cap == 0x1_0000_0000_0000_0000u128,
        decreases d - k,
    {
        let c = v[k];
        if c < '0' || c > '9' {
            assert(ip[k as int] == c);
            assert(!all_digits(ip));
            return None;
        }
        assert(s.take(k + 1).drop_last() =~= s.take(k as int));
        let next = ival * 10 + ((c as u32) - ('0' as u32)) as u128;
        ival = if next > cap { cap } else { next };
        k = k + 1;
    }
    assert(s.take(k as int) =~= ip);
    let fstart: usize = if d < v.len() { d + 1 } else { d };
    let mut fval: u64 = 0;
    let mut m: usize = fstart;
    assert(fp =~= s.subrange(fstart as int, s.len() as int));
    while m < v.len()
        invariant
            fstart <= m <= v.len(),
            s == v@,
            fp == s.subrange(fstart as int, s.len() as int),
            all_digits(s.subrange(fstart as int, m as int)),
            m - fstart <= 3 ==> fval as nat == digits_value(s.subrange(fstart as int, m as int)),
            m - fstart > 3 ==> fval as nat == digits_value(s.subrange(fstart as int, fstart + 3)),
            fval < 1000,
            m - fstart == 0 ==> fval == 0,
            m - fstart == 1 ==> fval < 10,
            m - fstart == 2 ==> fval < 100,
            ip == s.take(d as int),
            d as int == next_char(s, '.', 0),
            all_digits(ip),
            ival as nat == if digits_value(ip) < cap { digits_value(ip) } else { cap as nat },
            cap == 0x1_0000_0000_0000_0000u128,
            fstart == (if d < v.len() { d + 1 } else { d as int }),
            d <= v.len(),
        decreases v.len() - m,
    {
        let c = v[m];
        if c < '0' || c > '9' {
            assert(fp[m - fstart] == c);
            assert(!all_digits(fp));
            return None;
        }
        if m - fstart < 3 {
            assert(s.subrange(fstart as int, m + 1).drop_last() =~= s.subrange(fstart as int, m as int));
            fval = fval * 10 + ((c as u32) - ('0' as u32)) as u64;
        }
        m = m + 1;
        assert(all_digits(s.subrange(fstart as int, m as int)));
    }
    assert(s.subrange(fstart as int, m as int) =~= fp);
    assert(fp.len() >= 3 ==> fp.take(3) =~= s.subrange(fstart as int, fstart + 3));
    if d == 0 && fstart == v.len() {
        return None;
    }
    let f: u128 = if v.len() - fstart >= 3 {
        fval as u128
    } else if v.len() - fstart == 2 {
        fval as u128 * 10
    } else if v.len() - fstart == 1 {
        fval as u128 * 100
    } else {
        0
    };
    let total: u128 = ival * 1000 + f;
    if total > 0xffff_ffff_ffff_ffffu128 {
        None
    } else {
        Some(total as u64)
    }
}

/// A probe start takes a record that is not being probed to `Checking`, and the end of a
/// probe takes a record that is `Checking` to `Up` or `Down`: the only changes of status.
pub proof fn lemma_probe_transitions(
    before: HostStatus,
    success: bool,
    output: Seq<char>,
    elapsed_us: u64,
)
    ensures
        !(before is Checking) ==> valid_transition(before, HostStatus::Checking),
        valid_transition(HostStatus::Checking, probe_result(success, output, elapsed_us)),
{
}

/// The average latency, in microseconds, that the probe tool's output reports: the
/// second `/`-separated figure after the `=` of the first line that holds `avg` and `/`.
pub fn parse_ping_rtt(output: &str) -> (r: Option<u64>)
    ensures
        r == ping_rtt(output@, 0),
{
    let v = chars_of(output);
    let n = v.len();
    let avg = chars_of("avg");
    let mut pos: usize = 0;
    loop
        invariant
            pos <= n == v.len(),
            v@ == output@,
            avg@ == "avg"@,
            ping_rtt(v@, 0) == ping_rtt(v@, pos as int),
        decreases n - pos,
    {
        let mut e: usize = pos;
        while e < n && v[e] != '\n'
            invariant
                pos <= e <= n == v.len(),
                next_nl(v@, pos as int) == next_nl(v@, e as int),
            decreases n - e,
        {
            e = e + 1;
        }
        let line = slice_chars(&v, pos, e);
        if contains_text(&line, &avg) && find_char(&line, '/', 0) < line.len() {
            let mut j: usize = line.len();
            while j > 0 && line[j - 1] != '='
                invariant
                    j <= line.len(),
                    last_char(line@, '=', line.len() as int) == last_char(line@, '=', j as int),
                decreases j,
            {
                j = j - 1;
            }
            assert(line@.skip(last_char(line@, '=', line.len() as int) + 1) =~= line@.subrange(
                j as int,
                line.len() as int,
            ));
            let (fa, fb) = trim_range(&line, j, line.len());
            let fig = slice_chars(&line, fa, fb);
            let i1 = find_char(&fig, '/', 0);
            if i1 < fig.len() {
                let i2 = find_char(&fig, '/', i1 + 1);
                let (sa, sb) = trim_range(&fig, i1 + 1, i2);
                let field = slice_chars(&fig, sa, sb);
                return parse_ms_value(&field);
            }
        }
        if e >= n {
            return None;
        }
        pos = e + 1;
    }
}

/// The status that a finished probe leaves.
pub fn probe_status(success: bool, output: &str, elapsed_us: u64) -> (r: HostStatus)
    ensures
        r == probe_result(success, output@, elapsed_us),
        r is Up || r is Down,
{
    if !success {
        HostStatus::Down
    } else {
        match parse_ping_rtt(output) {
            Some(us) => HostStatus::Up(us),
            None => HostStatus::Up(elapsed_us),
        }
    }
}

/// Starts a probe of every record: each status becomes `Checking`, and the hostnames to
/// probe are handed out, one per record, in directory order.
pub fn check_all(hosts: &mut Vec<Host>) -> (targets: Vec<String>)
    ensures
        same_records_but_status(recs(old(hosts)@), recs(final(hosts)@)),
        forall|i: int| 0 <= i < final(hosts).len() ==> #[trigger] final(hosts)@[i].status
            == HostStatus::Checking,
        targets.len() == old(hosts).len(),
        forall|i: int| 0 <= i < targets.len() ==> #[trigger] targets@[i]@ == old(hosts)@[i].hostname@,
{
    let mut targets: Vec<String> = Vec::new();
    let mut i: usize = 0;
    while i < hosts.len()
        invariant
            i <= hosts.len() == old(hosts).len(),
            targets.len() == i,
            forall|j: int| 0 <= j < i ==> #[trigger] targets@[j]@ == old(hosts)@[j].hostname@,
            forall|j: int| 0 <= j < hosts.len() ==> (#[trigger] hosts@[j])@ == (HostRec {
                status: hosts@[j].status,
                ..old(hosts)@[j]@
            }),
            forall|j: int| 0 <= j < i ==> #[trigger] hosts@[j].status == HostStatus::Checking,
        decreases old(hosts).len() - i,
    {
        hosts[i].status = HostStatus::Checking;
        targets.push(hosts[i].hostname.clone());
        i = i + 1;
    }
    targets
}

/// Starts a probe of the record at `index`: its status becomes `Checking` and its
/// hostname is handed out. Nothing happens for an index out of range.
pub fn check_one(hosts: &mut Vec<Host>, index: usize) -> (target: Option<String>)
    ensures
        index < old(hosts).len() ==> {
            &&& target is Some
            &&& target->0@ == old(hosts)@[index as int].hostname@
            &&& recs(final(hosts)@) == recs(old(hosts)@).update(
                index as int,
                (HostRec { status: HostStatus::Checking, ..old(hosts)@[index as int]@ }),
            )
        },
        index >= old(hosts).len() ==> target is None && final(hosts)@ == old(hosts)@,
{
    if index >= hosts.len() {
        return None;
    }
    hosts[index].status = HostStatus::Checking;
    assert(recs(hosts@) =~= recs(old(hosts)@).update(
        index as int,
        HostRec { status: HostStatus::Checking, ..old(hosts)@[index as int]@ },
    ));
    Some(hosts[index].hostname.clone())
}

/// Records the outcome of a probe of the record at `index`. Nothing happens for an index
/// out of range.
pub fn finish_check(
    hosts: &mut Vec<Host>,
    index: usize,
    success: bool,
    output: &str,
    elapsed_us: u64,
)
    ensures
        index < old(hosts).len() ==> recs(final(hosts)@) == recs(old(hosts)@).update(
            index as int,
            (HostRec {
                status: probe_result(success, output@, elapsed_us),
                ..old(hosts)@[index as int]@
            }),
        ),
        index >= old(hosts).len() ==> final(hosts)@ == old(hosts)@,
{
    if index >= hosts.len() {
        return ;
    }
    let status = probe_status(success, output, elapsed_us);
    hosts[index].status = status;
    assert(recs(hosts@) =~= recs(old(hosts)@).update(
        index as int,
        HostRec { status, ..old(hosts)@[index as int]@ },
    ));
}

} // verus!

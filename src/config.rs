use vstd::prelude::*;
use crate::host::{DEFAULT_PORT, Host, HostRec, HostStatus, recs};
use crate::text::{
    chars_of, is_ws, is_ws_char, lower_of, lowercase, matches_at, parse_u16,
    parse_u16_range, replace_char, replace_char_with, same_chars, trim, trim_range,
};

verus! {

broadcast use vstd::string::group_string_axioms;

/// Group label of hosts declared before any group tag.
pub open spec fn default_group() -> Seq<char> {
    "default"@
}

/// Where the parse of the primary format stands after some lines.
pub struct ParseState {
    /// Records completed so far.
    pub hosts: Seq<HostRec>,
    /// Alias of the block being read, if any.
    pub alias: Option<Seq<char>>,
    pub hostname: Seq<char>,
    pub user: Seq<char>,
    pub port: u16,
    pub identity: Option<Seq<char>>,
    /// Group label that the latest tag set.
    pub group: Seq<char>,
    /// Group label in force when the current block was declared.
    pub block_group: Seq<char>,
}

pub open spec fn initial_state() -> ParseState {
    ParseState {
        hosts: Seq::empty(),
        alias: None,
        hostname: Seq::empty(),
        user: Seq::empty(),
        port: DEFAULT_PORT,
        identity: None,
        group: default_group(),
        block_group: default_group(),
    }
}

/// The alias is a pattern (`*` or `?`), not a concrete host.
pub open spec fn has_wildcard(a: Seq<char>) -> bool {
    exists|i: int| 0 <= i < a.len() && (a[i] == '*' || a[i] == '?')
}

/// The record that the block being read describes, under alias `a`.
pub open spec fn block_record(st: ParseState, a: Seq<char>) -> HostRec {
    HostRec {
        alias: a,
        hostname: if st.hostname.len() == 0 {
            a
        } else {
            st.hostname
        },
        user: st.user,
        port: st.port,
        identity_file: st.identity,
        group: st.block_group,
        status: HostStatus::Unknown,
    }
}

/// The records once the block being read is closed.
pub open spec fn flushed(st: ParseState) -> Seq<HostRec> {
    match st.alias {
        Some(a) => if has_wildcard(a) {
            st.hosts
        } else {
            st.hosts.push(block_record(st, a))
        },
        None => st.hosts,
    }
}

/// Index of the first white-space character of `t` at or after `i`, or its length.
pub open spec fn first_ws(t: Seq<char>, i: int) -> int
    decreases t.len() - i,
{
    if i < 0 || i >= t.len() {
        t.len() as int
    } else if is_ws(t[i]) {
        i
    } else {
        first_ws(t, i + 1)
    }
}

/// Index of the first line break of `s` at or after `i`, or its length.
pub open spec fn next_nl(s: Seq<char>, i: int) -> int
    decreases s.len() - i,
{
    if i < 0 || i >= s.len() {
        s.len() as int
    } else if s[i] == '\n' {
        i
    } else {
        next_nl(s, i + 1)
    }
}

/// The keys of the primary format that carry meaning.
#[derive(Clone, Copy, PartialEq, Eq, Structural, Debug)]
pub enum Directive {
    Host,
    HostName,
    User,
    Port,
    IdentityFile,
    Other,
}

/// The directive that the case-folded key `k` names.
pub open spec fn directive_of(k: Seq<char>) -> Directive {
    if k == "host"@ {
        Directive::Host
    } else if k == "hostname"@ {
        Directive::HostName
    } else if k == "user"@ {
        Directive::User
    } else if k == "port"@ {
        Directive::Port
    } else if k == "identityfile"@ {
        Directive::IdentityFile
    } else {
        Directive::Other
    }
}

/// The directive that the case-folded key `k` names.
pub fn directive_of_folded(k: &Vec<char>) -> (r: Directive)
    ensures
        r == directive_of(k@),
{
    if same_chars(k, &chars_of("host")) {
        Directive::Host
    } else if same_chars(k, &chars_of("hostname")) {
        Directive::HostName
    } else if same_chars(k, &chars_of("user")) {
        Directive::User
    } else if same_chars(k, &chars_of("port")) {
        Directive::Port
    } else if same_chars(k, &chars_of("identityfile")) {
        Directive::IdentityFile
    } else {
        Directive::Other
    }
}

/// The state after a line that gives `directive` the value `val`.
pub open spec fn apply_directive(
    st: ParseState,
    directive: Directive,
    val: Seq<char>,
    home: Seq<char>,
) -> ParseState {
    if directive == Directive::Host {
        ParseState {
            hosts: flushed(st),
            alias: Some(val),
            hostname: Seq::empty(),
            user: Seq::empty(),
            port: DEFAULT_PORT,
            identity: None,
            block_group: st.group,
            ..st
        }
    } else if directive == Directive::HostName {
        ParseState { hostname: val, ..st }
    } else if directive == Directive::User {
        ParseState { user: val, ..st }
    } else if directive == Directive::Port {
        ParseState {
            port: match parse_u16(val) {
                Some(p) => p,
                None => DEFAULT_PORT,
            },
            ..st
        }
    } else if directive == Directive::IdentityFile {
        ParseState { identity: Some(replace_char(val, '~', home)), ..st }
    } else {
        st
    }
}

/// The state after one line of the primary format.
pub open spec fn step(st: ParseState, line: Seq<char>, home: Seq<char>) -> ParseState {
    let t = trim(line);
    if t.len() > 0 && t[0] == '#' {
        let tag = trim(t.drop_first());
        if tag.len() >= "group:"@.len() && tag.take("group:"@.len() as int) == "group:"@ {
            ParseState { group: trim(tag.skip("group:"@.len() as int)), ..st }
        } else {
            st
        }
    } else {
        let p = first_ws(t, 0);
        if p >= t.len() {
            st
        } else {
            apply_directive(st, directive_of(lower_of(t.take(p))), trim(t.skip(p + 1)), home)
        }
    }
}

/// The state after the lines of `s` from position `pos` on.
pub open spec fn run(s: Seq<char>, pos: int, st: ParseState, home: Seq<char>) -> ParseState
    decreases s.len() - pos,
{
    if pos < 0 || pos > s.len() {
        st
    } else {
        let e = next_nl(s, pos);
        let st2 = step(st, s.subrange(pos, e), home);
        if e < pos || e >= s.len() {
            st2
        } else {
            run(s, e + 1, st2, home)
        }
    }
}

/// The records that the primary-format text `s` declares, `home` standing for `~`.
pub open spec fn parse_config(s: Seq<char>, home: Seq<char>) -> Seq<HostRec> {
    flushed(run(s, 0, initial_state(), home))
}

/// The alias that a line declares, if it is a `Host` line.
pub open spec fn declaration(line: Seq<char>) -> Option<Seq<char>> {
    let t = trim(line);
    if t.len() > 0 && t[0] == '#' {
        None
    } else {
        let p = first_ws(t, 0);
        if p < t.len() && directive_of(lower_of(t.take(p))) == Directive::Host {
            Some(trim(t.skip(p + 1)))
        } else {
            None
        }
    }
}

/// The declared alias, if there is one and it is not a pattern.
pub open spec fn concrete(d: Option<Seq<char>>) -> Seq<Seq<char>> {
    match d {
        Some(a) => if has_wildcard(a) {
            Seq::empty()
        } else {
            seq![a]
        },
        None => Seq::empty(),
    }
}

/// The concrete aliases that the `Host` lines of `s` declare from position `pos` on.
pub open spec fn declared(s: Seq<char>, pos: int) -> Seq<Seq<char>>
    decreases s.len() - pos,
{
    if pos < 0 || pos > s.len() {
        Seq::empty()
    } else {
        let e = next_nl(s, pos);
        let here = concrete(declaration(s.subrange(pos, e)));
        if e < pos || e >= s.len() {
            here
        } else {
            here + declared(s, e + 1)
        }
    }
}

/// The aliases of a sequence of records.
pub open spec fn aliases_of(hs: Seq<HostRec>) -> Seq<Seq<char>> {
    hs.map_values(|h: HostRec| h.alias)
}

proof fn lemma_flushed_aliases(st: ParseState)
    ensures
        aliases_of(flushed(st)) == aliases_of(st.hosts) + concrete(st.alias),
{
    match st.alias {
        Some(a) => {
            if !has_wildcard(a) {
                assert(aliases_of(flushed(st)) =~= aliases_of(st.hosts) + concrete(st.alias));
            } else {
                assert(aliases_of(st.hosts) + concrete(st.alias) =~= aliases_of(st.hosts));
            }
        },
        None => {
            assert(aliases_of(st.hosts) + concrete(st.alias) =~= aliases_of(st.hosts));
        },
    }
}

proof fn lemma_step_aliases(st: ParseState, line: Seq<char>, home: Seq<char>)
    ensures
        aliases_of(step(st, line, home).hosts) + concrete(step(st, line, home).alias) == aliases_of(
            st.hosts,
        ) + concrete(st.alias) + concrete(declaration(line)),
{
    let st2 = step(st, line, home);
    lemma_flushed_aliases(st);
    if declaration(line) is None {
        assert(st2.hosts == st.hosts && st2.alias == st.alias);
        assert(aliases_of(st.hosts) + concrete(st.alias) + concrete(declaration(line)) =~= aliases_of(
            st.hosts,
        ) + concrete(st.alias));
    } else {
        assert(st2.hosts == flushed(st));
        assert(st2.alias == declaration(line));
    }
}

proof fn lemma_run_aliases(s: Seq<char>, pos: int, st: ParseState, home: Seq<char>)
    requires
        0 <= pos <= s.len(),
    ensures
        aliases_of(flushed(run(s, pos, st, home))) == aliases_of(st.hosts) + concrete(st.alias)
            + declared(s, pos),
    decreases s.len() - pos,
{
    let e = next_nl(s, pos);
    let st2 = step(st, s.subrange(pos, e), home);
    lemma_step_aliases(st, s.subrange(pos, e), home);
    if e < pos || e >= s.len() {
        lemma_flushed_aliases(st2);
    } else {
        lemma_run_aliases(s, e + 1, st2, home);
        assert(aliases_of(st.hosts) + concrete(st.alias) + declared(s, pos) =~= aliases_of(st.hosts)
            + concrete(st.alias) + concrete(declaration(s.subrange(pos, e))) + declared(s, e + 1));
    }
}

/// Each `Host` line of the primary format whose alias is not a pattern yields exactly one
/// record, in the order of the lines; a line with a pattern alias yields none.
pub proof fn lemma_one_record_per_block(s: Seq<char>, home: Seq<char>)
    ensures
        aliases_of(parse_config(s, home)) == declared(s, 0),
{
    lemma_run_aliases(s, 0, initial_state(), home);
    assert(aliases_of(initial_state().hosts) + concrete(initial_state().alias) + declared(s, 0)
        =~= declared(s, 0));
}

/// `home` joined with the relative path `rest`, a `/` between them unless `home` is empty
/// or already ends with one.
pub open spec fn under_home(home: Seq<char>, rest: Seq<char>) -> Seq<char> {
    if home.len() > 0 && home.last() != '/' {
        home + "/"@ + rest
    } else {
        home + rest
    }
}

fn join_home(home: &str, rest: &str) -> (r: String)
    ensures
        r@ == under_home(home@, rest@),
{
    let mut r = home.to_owned();
    let n = home.unicode_len();
    if n > 0 && home.get_char(n - 1) != '/' {
        r.append("/");
    }
    r.append(rest);
    r
}

/// Where the primary configuration lives under the home directory.
pub fn ssh_config_path(home: &str) -> (r: String)
    ensures
        r@ == under_home(home@, ".ssh/config"@),
{
    join_home(home, ".ssh/config")
}

/// Where the supplemental record list lives under the home directory.
pub fn sshmap_config_path(home: &str) -> (r: String)
    ensures
        r@ == under_home(home@, ".config/sshmap/hosts.json"@),
{
    join_home(home, ".config/sshmap/hosts.json")
}

/// A record of the built-in sample set.
pub open spec fn sample_record(
    alias: Seq<char>,
    hostname: Seq<char>,
    user: Seq<char>,
    port: u16,
    group: Seq<char>,
) -> HostRec {
    HostRec {
        alias,
        hostname,
        user,
        port,
        identity_file: None,
        group,
        status: HostStatus::Unknown,
    }
}

/// The built-in sample set written where no supplemental list exists yet.
pub open spec fn sample_records() -> Seq<HostRec> {
    seq![
        sample_record("web-prod-1"@, "192.168.1.10"@, "deploy"@, 22, "production"@),
        sample_record("web-staging"@, "192.168.1.20"@, "deploy"@, 22, "staging"@),
        sample_record("db-prod"@, "192.168.1.30"@, "admin"@, 2222, "production"@),
        sample_record("dev-box"@, "10.0.0.5"@, "matt"@, 22, "dev"@),
    ]
}

fn sample_host(alias: &str, hostname: &str, user: &str, port: u16, group: &str) -> (r: Host)
    ensures
        r@ == sample_record(alias@, hostname@, user@, port, group@),
{
    Host {
        alias: alias.to_owned(),
        hostname: hostname.to_owned(),
        user: user.to_owned(),
        port,
        identity_file: None,
        group: group.to_owned(),
        status: HostStatus::Unknown,
    }
}

/// The records to write as the supplemental list on a first run: the sample set when no
/// list exists yet, nothing when one does (an existing list is never overwritten).
pub fn create_sample_config(exists: bool) -> (r: Option<Vec<Host>>)
    ensures
        exists ==> r is None,
        !exists ==> r is Some && recs(r->0@) == sample_records(),
{
    if exists {
        return None;
    }
    let mut v: Vec<Host> = Vec::new();
    v.push(sample_host("web-prod-1", "192.168.1.10", "deploy", 22, "production"));
    v.push(sample_host("web-staging", "192.168.1.20", "deploy", 22, "staging"));
    v.push(sample_host("db-prod", "192.168.1.30", "admin", 2222, "production"));
    v.push(sample_host("dev-box", "10.0.0.5", "matt", 22, "dev"));
    assert(recs(v@) =~= sample_records());
    Some(v)
}

/// Whether `a` holds `*` or `?`.
pub fn alias_has_wildcard(a: &str) -> (r: bool)
    ensures
        r == has_wildcard(a@),
{
    let c = chars_of(a);
    let mut i: usize = 0;
    while i < c.len()
        invariant
            i <= c.len(),
            c@ == a@,
            forall|j: int| 0 <= j < i ==> !(c@[j] == '*' || c@[j] == '?'),
        decreases c.len() - i,
    {
        if c[i] == '*' || c[i] == '?' {
            return true;
        }
        i = i + 1;
    }
    false
}

fn clone_opt(o: &Option<String>) -> (r: Option<String>)
    ensures
        crate::host::opt_view(r) == crate::host::opt_view(*o),
{
    match o {
        Some(s) => Some(s.clone()),
        None => None,
    }
}

/// Where the parse of the primary format stands, as values.
pub struct ParseCursor {
    pub hosts: Vec<Host>,
    pub alias: Option<String>,
    pub hostname: String,
    pub user: String,
    pub port: u16,
    pub identity: Option<String>,
    pub group: String,
    pub block_group: String,
}

impl View for ParseCursor {
    type V = ParseState;

    open spec fn view(&self) -> ParseState {
        ParseState {
            hosts: recs(self.hosts@),
            alias: crate::host::opt_view(self.alias),
            hostname: self.hostname@,
            user: self.user@,
            port: self.port,
            identity: crate::host::opt_view(self.identity),
            group: self.group@,
            block_group: self.block_group@,
        }
    }
}

impl ParseCursor {
    pub fn new() -> (r: ParseCursor)
        ensures
            r@ == initial_state(),
    {
        let r = ParseCursor {
            hosts: Vec::new(),
            alias: None,
            hostname: String::new(),
            user: String::new(),
            port: DEFAULT_PORT,
            identity: None,
            group: "default".to_owned(),
            block_group: "default".to_owned(),
        };
        assert(recs(r.hosts@) =~= Seq::empty());
        r
    }

    /// Closes the block being read, adding its record unless its alias is a pattern.
    pub fn flush(&mut self)
        ensures
            final(self)@ == (ParseState { hosts: flushed(old(self)@), alias: None, ..old(self)@ }),
    {
        let ghost before = self@;
        match self.alias.take() {
            Some(a) => {
                if !alias_has_wildcard(a.as_str()) {
                    let hostname = if self.hostname.as_str().is_empty() {
                        a.clone()
                    } else {
                        self.hostname.clone()
                    };
                    let h = Host {
                        alias: a,
                        hostname,
                        user: self.user.clone(),
                        port: self.port,
                        identity_file: clone_opt(&self.identity),
                        group: self.block_group.clone(),
                        status: HostStatus::Unknown,
                    };
                    let ghost old_hosts = self.hosts@;
                    self.hosts.push(h);
                    assert(recs(self.hosts@) =~= recs(old_hosts).push(h@));
                    assert(h@ == block_record(before, before.alias->0));
                }
            },
            None => {},
        }
    }

    /// Reads the line `v[a..b]`.
    pub fn step_line(&mut self, v: &Vec<char>, a: usize, b: usize, content: &str, home: &str)
        requires
            a <= b <= v.len(),
            v@ == content@,
        ensures
            final(self)@ == step(old(self)@, v@.subrange(a as int, b as int), home@),
    {
        let ghost line = v@.subrange(a as int, b as int);
        let (ta, tb) = trim_range(v, a, b);
        let ghost t = v@.subrange(ta as int, tb as int);
        assert(t == trim(line));
        if ta < tb && v[ta] == '#' {
            let (ga, gb) = trim_range(v, ta + 1, tb);
            assert(t.drop_first() =~= v@.subrange(ta + 1, tb as int));
            let ghost tag = v@.subrange(ga as int, gb as int);
            let pre = chars_of("group:");
            if gb - ga >= pre.len() && matches_at(v, ga, &pre) {
                assert(tag.take(pre.len() as int) =~= v@.subrange(ga as int, ga + pre.len()));
                let (xa, xb) = trim_range(v, ga + pre.len(), gb);
                assert(tag.skip(pre.len() as int) =~= v@.subrange(ga + pre.len(), gb as int));
                self.group = content.substring_char(xa, xb).to_owned();
            } else {
                assert(tag.len() >= pre.len() ==> tag.take(pre.len() as int) =~= v@.subrange(
                    ga as int,
                    ga + pre.len(),
                ));
            }
            return ;
        }
        let mut p: usize = ta;
        while p < tb && !is_ws_char(v[p])
            invariant
                ta <= p <= tb <= v.len(),
                t == v@.subrange(ta as int, tb as int),
                first_ws(t, 0) == first_ws(t, p - ta),
            decreases tb - p,
        {
            p = p + 1;
        }
        if p >= tb {
            return ;
        }
        let key = lowercase(content.substring_char(ta, p));
        assert(t.take(p - ta) =~= v@.subrange(ta as int, p as int));
        let kc = chars_of(key.as_str());
        let (va, vb) = trim_range(v, p + 1, tb);
        assert(t.skip(p - ta + 1) =~= v@.subrange(p + 1, tb as int));
        let val = content.substring_char(va, vb);
        let directive = directive_of_folded(&kc);
        if directive == Directive::Host {
            self.flush();
            self.alias = Some(val.to_owned());
            self.hostname = String::new();
            self.user = String::new();
            self.port = DEFAULT_PORT;
            self.identity = None;
            self.block_group = self.group.clone();
        } else if directive == Directive::HostName {
            self.hostname = val.to_owned();
        } else if directive == Directive::User {
            self.user = val.to_owned();
        } else if directive == Directive::Port {
            self.port = match parse_u16_range(v, va, vb) {
                Some(n) => n,
                None => DEFAULT_PORT,
            };
        } else if directive == Directive::IdentityFile {
            self.identity = Some(replace_char_with(val, '~', home));
        }
    }

    /// Closes the last block and hands out the records.
    pub fn finish(self) -> (r: Vec<Host>)
        ensures
            recs(r@) == flushed(self@),
    {
        let mut st = self;
        st.flush();
        st.hosts
    }
}

/// The records that the primary-format text `content` declares, `home` standing for `~`
/// in identity-file paths.
pub fn parse_ssh_config(content: &str, home: &str) -> (r: Vec<Host>)
    ensures
        recs(r@) == parse_config(content@, home@),
{
    let v = chars_of(content);
    let n = v.len();
    let mut st = ParseCursor::new();
    let mut pos: usize = 0;
    loop
        invariant
            pos <= n == v.len(),
            v@ == content@,
            run(v@, 0, initial_state(), home@) == run(v@, pos as int, st@, home@),
        decreases n - pos,
    {
        let mut e: usize = pos;
        while e < n && v[e] != '\n'
            invariant
                pos <= e <= n == v.len(),
                next_nl(v@, pos as int) == next_nl(v@, e as int),
            decreases n - e,
        {
            e = e + 1;
        }
        let ghost before = st@;
        st.step_line(&v, pos, e, content, home);
        if e >= n {
            return st.finish();
        }
        assert(run(v@, pos as int, before, home@) == run(v@, e + 1, st@, home@));
        pos = e + 1;
    }
}

} // verus!

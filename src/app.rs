use vstd::prelude::*;
use crate::host::{Host, HostRec, recs};
use crate::directory::{group_labels, has_group, strictly_sorted, texts};
use crate::text::{chars_of, contains_text, has_sub, lower_of, lowercase, same_chars};

verus! {

broadcast use vstd::string::group_string_axioms;

/// The record matches the filter text `q`: `q` is empty, or, case folded, it occurs in the
/// alias, hostname, group or user.
pub open spec fn host_matches(h: HostRec, q: Seq<char>) -> bool {
    ||| q.len() == 0
    ||| has_sub(lower_of(h.alias), lower_of(q))
    ||| has_sub(lower_of(h.hostname), lower_of(q))
    ||| has_sub(lower_of(h.group), lower_of(q))
    ||| has_sub(lower_of(h.user), lower_of(q))
}

/// The indices below `n` of the records that match `q`, in directory order.
pub open spec fn filtered(hs: Seq<HostRec>, q: Seq<char>, n: int) -> Seq<usize>
    decreases n,
{
    if n <= 0 {
        Seq::empty()
    } else if host_matches(hs[n - 1], q) {
        filtered(hs, q, n - 1).push((n - 1) as usize)
    } else {
        filtered(hs, q, n - 1)
    }
}

/// The filtered view of the whole directory.
pub open spec fn view_of(hs: Seq<HostRec>, q: Seq<char>) -> Seq<usize> {
    filtered(hs, q, hs.len() as int)
}

/// The largest cursor position in a list of `n` entries (0 when it is empty).
pub open spec fn last_pos(n: nat) -> nat {
    if n == 0 {
        0
    } else {
        (n - 1) as nat
    }
}

/// If `needle` occurs in `mid` and `mid` in `hay`, `needle` occurs in `hay`.
pub proof fn lemma_has_sub_transitive(hay: Seq<char>, mid: Seq<char>, needle: Seq<char>)
    requires
        has_sub(hay, mid),
        has_sub(mid, needle),
    ensures
        has_sub(hay, needle),
{
    let i = choose|i: int|
        0 <= i && i + mid.len() <= hay.len() && #[trigger] hay.subrange(i, i + mid.len()) == mid;
    let j = choose|j: int|
        0 <= j && j + needle.len() <= mid.len() && #[trigger] mid.subrange(j, j + needle.len())
            == needle;
    assert(hay.subrange(i + j, i + j + needle.len()) =~= mid.subrange(j, j + needle.len()));
}

/// What the filtered view below `n` holds: the matching indices below `n`, and no more.
pub proof fn lemma_filtered_members(hs: Seq<HostRec>, q: Seq<char>, n: int)
    requires
        0 <= n <= hs.len(),
        hs.len() <= usize::MAX,
    ensures
        forall|k: int|
            0 <= k < filtered(hs, q, n).len() ==> #[trigger] filtered(hs, q, n)[k] < n
                && host_matches(hs[filtered(hs, q, n)[k] as int], q),
        forall|i: int|
            0 <= i < n && host_matches(hs[i], q) ==> #[trigger] filtered(hs, q, n).contains(
                i as usize,
            ),
    decreases n,
{
    if n > 0 {
        lemma_filtered_members(hs, q, n - 1);
        let f = filtered(hs, q, n - 1);
        assert forall|i: int| 0 <= i < n && host_matches(hs[i], q) implies #[trigger] filtered(
            hs,
            q,
            n,
        ).contains(i as usize) by {
            if i < n - 1 {
                assert(f.contains(i as usize));
                let k = choose|k: int| 0 <= k < f.len() && f[k] == i as usize;
                if host_matches(hs[n - 1], q) {
                    assert(filtered(hs, q, n)[k] == f[k]);
                }
            } else {
                assert(filtered(hs, q, n)[f.len() as int] == i as usize);
            }
        }
    }
}

/// Lengthening the filter text never lets more records through: every record that the
/// longer text lets through, the shorter one does too. (Case folding depends on context,
/// so this is stated where the folded shorter text occurs in the folded longer one.)
pub proof fn lemma_filter_monotonic(hs: Seq<HostRec>, short: Seq<char>, long: Seq<char>)
    requires
        short.is_prefix_of(long),
        short.len() == 0 || has_sub(lower_of(long), lower_of(short)),
        hs.len() <= usize::MAX,
    ensures
        forall|i: usize| view_of(hs, long).contains(i) ==> view_of(hs, short).contains(i),
        view_of(hs, long).len() <= view_of(hs, short).len(),
{
    assert forall|i: int| 0 <= i < hs.len() && #[trigger] host_matches(hs[i], long) implies host_matches(
        hs[i],
        short,
    ) by {
        if short.len() > 0 && long.len() > 0 {
            let h = hs[i];
            if has_sub(lower_of(h.alias), lower_of(long)) {
                lemma_has_sub_transitive(lower_of(h.alias), lower_of(long), lower_of(short));
            }
            if has_sub(lower_of(h.hostname), lower_of(long)) {
                lemma_has_sub_transitive(lower_of(h.hostname), lower_of(long), lower_of(short));
            }
            if has_sub(lower_of(h.group), lower_of(long)) {
                lemma_has_sub_transitive(lower_of(h.group), lower_of(long), lower_of(short));
            }
            if has_sub(lower_of(h.user), lower_of(long)) {
                lemma_has_sub_transitive(lower_of(h.user), lower_of(long), lower_of(short));
            }
        }
    }
    lemma_filtered_members(hs, long, hs.len() as int);
    lemma_filtered_members(hs, short, hs.len() as int);
    assert forall|i: usize| view_of(hs, long).contains(i) implies view_of(hs, short).contains(i) by {
        let k = choose|k: int| 0 <= k < view_of(hs, long).len() && view_of(hs, long)[k] == i;
        assert(view_of(hs, long)[k] < hs.len());
        assert(host_matches(hs[i as int], long));
        assert(host_matches(hs[i as int], short));
        assert(filtered(hs, short, hs.len() as int).contains((i as int) as usize));
    }
    lemma_filtered_len_monotonic(hs, short, long, hs.len() as int);
}

proof fn lemma_filtered_len_monotonic(hs: Seq<HostRec>, short: Seq<char>, long: Seq<char>, n: int)
    requires
        0 <= n <= hs.len(),
        forall|i: int| 0 <= i < hs.len() && #[trigger] host_matches(hs[i], long) ==> host_matches(
            hs[i],
            short,
        ),
    ensures
        filtered(hs, long, n).len() <= filtered(hs, short, n).len(),
    decreases n,
{
    if n > 0 {
        lemma_filtered_len_monotonic(hs, short, long, n - 1);
    }
}

/// The colour family in which a group label is shown.
#[derive(Clone, Copy, PartialEq, Eq, Structural, Debug)]
pub enum GroupTone {
    Production,
    Staging,
    Development,
    Testing,
    Other,
}

/// The tone of a case-folded group label.
pub open spec fn tone_of(g: Seq<char>) -> GroupTone {
    if g == "production"@ || g == "prod"@ {
        GroupTone::Production
    } else if g == "staging"@ || g == "stage"@ {
        GroupTone::Staging
    } else if g == "dev"@ || g == "development"@ {
        GroupTone::Development
    } else if g == "test"@ || g == "testing"@ {
        GroupTone::Testing
    } else {
        GroupTone::Other
    }
}

/// The tone of the case-folded group label `g`.
pub fn tone_of_folded(g: &Vec<char>) -> (r: GroupTone)
    ensures
        r == tone_of(g@),
{
    if same_chars(g, &chars_of("production")) || same_chars(g, &chars_of("prod")) {
        GroupTone::Production
    } else if same_chars(g, &chars_of("staging")) || same_chars(g, &chars_of("stage")) {
        GroupTone::Staging
    } else if same_chars(g, &chars_of("dev")) || same_chars(g, &chars_of("development")) {
        GroupTone::Development
    } else if same_chars(g, &chars_of("test")) || same_chars(g, &chars_of("testing")) {
        GroupTone::Testing
    } else {
        GroupTone::Other
    }
}

/// The tone in which the group label `group` is shown, compared without regard to case.
pub fn group_tone(group: &str) -> (r: GroupTone)
    ensures
        r == tone_of(lower_of(group@)),
{
    let l = lowercase(group);
    tone_of_folded(&chars_of(l.as_str()))
}

/// Interactive state over the directory: filter text, cursor and scroll offset within the
/// filtered view, and the flags that the front end keeps.
pub struct App {
    pub selected: usize,
    pub scroll_offset: usize,
    pub filter: String,
    pub filter_mode: bool,
    pub should_quit: bool,
    pub connect_index: Option<usize>,
    pub show_groups: bool,
    pub message: Option<String>,
}

/// Whether the case-folded `field` holds the case-folded query `q`.
fn field_has(field: &String, q: &Vec<char>) -> (r: bool)
    ensures
        r == has_sub(lower_of(field@), q@),
{
    let l = lowercase(field.as_str());
    let c = chars_of(l.as_str());
    contains_text(&c, q)
}

/// Whether `h` matches the filter whose case-folded characters are `q`.
pub fn matches_folded(h: &Host, q: &Vec<char>) -> (r: bool)
    ensures
        r == (has_sub(lower_of(h.alias@), q@) || has_sub(lower_of(h.hostname@), q@) || has_sub(
            lower_of(h.group@),
            q@,
        ) || has_sub(lower_of(h.user@), q@)),
{
    field_has(&h.alias, q) || field_has(&h.hostname, q) || field_has(&h.group, q) || field_has(
        &h.user,
        q,
    )
}

impl App {
    /// The cursor lies in the filtered view of `hs`, or at 0.
    pub open spec fn cursor_ok(&self, hs: Seq<HostRec>) -> bool {
        self.selected == 0 || self.selected < view_of(hs, self.filter@).len()
    }

    pub fn new() -> (r: App)
        ensures
            r.selected == 0,
            r.scroll_offset == 0,
            r.filter@.len() == 0,
            !r.filter_mode,
            !r.should_quit,
            r.connect_index is None,
            r.show_groups,
            r.message is None,
            forall|hs: Seq<HostRec>| #[trigger] r.cursor_ok(hs),
    {
        App {
            selected: 0,
            scroll_offset: 0,
            filter: String::new(),
            filter_mode: false,
            should_quit: false,
            connect_index: None,
            show_groups: true,
            message: None,
        }
    }

    /// The directory indices of the records that match the filter, in directory order.
    pub fn filtered_indices(&self, hosts: &Vec<Host>) -> (r: Vec<usize>)
        ensures
            r@ == view_of(recs(hosts@), self.filter@),
    {
        let ghost hs = recs(hosts@);
        let everything = self.filter.as_str().is_empty();
        let q = lowercase(self.filter.as_str());
        let qc = chars_of(q.as_str());
        let mut r: Vec<usize> = Vec::new();
        let mut i: usize = 0;
        while i < hosts.len()
            invariant
                i <= hosts.len(),
                hs == recs(hosts@),
                everything == (self.filter@.len() == 0),
                qc@ == lower_of(self.filter@),
                r@ == filtered(hs, self.filter@, i as int),
            decreases hosts.len() - i,
        {
            assert(hs[i as int] == hosts@[i as int]@);
            if everything || matches_folded(&hosts[i], &qc) {
                r.push(i);
            }
            i = i + 1;
        }
        r
    }

    pub fn select_up(&mut self)
        ensures
            final(self).selected == if old(self).selected > 0 {
                old(self).selected - 1
            } else {
                0
            },
            final(self).filter == old(self).filter,
            forall|hs: Seq<HostRec>| #[trigger] old(self).cursor_ok(hs) ==> final(self).cursor_ok(hs),
    {
        if self.selected > 0 {
            self.selected = self.selected - 1;
        }
    }

    pub fn select_down(&mut self, hosts: &Vec<Host>)
        requires
            old(self).cursor_ok(recs(hosts@)),
        ensures
            final(self).selected == if old(self).selected < last_pos(
                view_of(recs(hosts@), old(self).filter@).len(),
            ) {
                old(self).selected + 1
            } else {
                old(self).selected as int
            },
            final(self).filter == old(self).filter,
            final(self).cursor_ok(recs(hosts@)),
    {
        let n = self.filtered_indices(hosts).len();
        let max = if n > 0 { n - 1 } else { 0 };
        if self.selected < max {
            self.selected = self.selected + 1;
        }
    }

    pub fn page_up(&mut self, n: usize)
        ensures
            final(self).selected == if old(self).selected > n {
                old(self).selected - n
            } else {
                0
            },
            final(self).filter == old(self).filter,
            forall|hs: Seq<HostRec>| #[trigger] old(self).cursor_ok(hs) ==> final(self).cursor_ok(hs),
    {
        self.selected = if self.selected > n { self.selected - n } else { 0 };
    }

    pub fn page_down(&mut self, hosts: &Vec<Host>, n: usize)
        requires
            old(self).cursor_ok(recs(hosts@)),
        ensures
            final(self).selected == if old(self).selected + n < last_pos(
                view_of(recs(hosts@), old(self).filter@).len(),
            ) {
                old(self).selected + n
            } else {
                last_pos(view_of(recs(hosts@), old(self).filter@).len()) as int
            },
            final(self).filter == old(self).filter,
            final(self).cursor_ok(recs(hosts@)),
    {
        let len = self.filtered_indices(hosts).len();
        let max = if len > 0 { len - 1 } else { 0 };
        let target = if self.selected > max || n > max - self.selected {
            max
        } else {
            self.selected + n
        };
        self.selected = target;
    }

    /// Brings the cursor back into the filtered view of `hosts` after that view shrank.
    pub fn clamp_cursor(&mut self, hosts: &Vec<Host>)
        ensures
            final(self).selected == if old(self).selected > last_pos(
                view_of(recs(hosts@), old(self).filter@).len(),
            ) {
                last_pos(view_of(recs(hosts@), old(self).filter@).len()) as int
            } else {
                old(self).selected as int
            },
            final(self).filter == old(self).filter,
            final(self).cursor_ok(recs(hosts@)),
    {
        let n = self.filtered_indices(hosts).len();
        let max = if n > 0 { n - 1 } else { 0 };
        if self.selected > max {
            self.selected = max;
        }
    }

    /// The directory index under the cursor, if the cursor lies in the filtered view.
    pub fn selected_host_index(&self, hosts: &Vec<Host>) -> (r: Option<usize>)
        ensures
            r == if self.selected < view_of(recs(hosts@), self.filter@).len() {
                Some(view_of(recs(hosts@), self.filter@)[self.selected as int])
            } else {
                None::<usize>
            },
    {
        let indices = self.filtered_indices(hosts);
        if self.selected < indices.len() {
            Some(indices[self.selected])
        } else {
            None
        }
    }

    /// Marks the record under the cursor for connection.
    pub fn connect_selected(&mut self, hosts: &Vec<Host>)
        ensures
            final(self).connect_index == if old(self).selected < view_of(
                recs(hosts@),
                old(self).filter@,
            ).len() {
                Some(view_of(recs(hosts@), old(self).filter@)[old(self).selected as int])
            } else {
                old(self).connect_index
            },
            final(self).selected == old(self).selected,
            final(self).filter == old(self).filter,
            forall|hs: Seq<HostRec>| #[trigger] old(self).cursor_ok(hs) ==> final(self).cursor_ok(hs),
    {
        match self.selected_host_index(hosts) {
            Some(i) => {
                self.connect_index = Some(i);
            },
            None => {},
        }
    }

    /// Replaces the filter text; the cursor and the scroll offset go back to the top.
    pub fn set_filter(&mut self, text: String)
        ensures
            final(self).filter@ == text@,
            final(self).selected == 0,
            final(self).scroll_offset == 0,
            forall|hs: Seq<HostRec>| #[trigger] final(self).cursor_ok(hs),
    {
        self.filter = text;
        self.selected = 0;
        self.scroll_offset = 0;
    }

    /// The distinct group labels of the directory, in ascending order.
    pub fn groups(&self, hosts: &Vec<Host>) -> (r: Vec<String>)
        ensures
            strictly_sorted(texts(r@)),
            forall|g: Seq<char>| #[trigger] texts(r@).contains(g) <==> has_group(recs(hosts@), g),
    {
        group_labels(hosts)
    }

    /// Moves the scroll offset so that the cursor shows in a window of `height` rows.
    pub fn adjust_scroll(&mut self, height: usize)
        ensures
            final(self).selected == old(self).selected,
            final(self).filter == old(self).filter,
            height > 0 ==> final(self).scroll_offset <= final(self).selected,
            height > 0 ==> final(self).selected < final(self).scroll_offset + height,
            old(self).scroll_offset <= old(self).selected < old(self).scroll_offset + height
                ==> final(self).scroll_offset == old(self).scroll_offset,
    {
        if self.selected < self.scroll_offset {
            self.scroll_offset = self.selected;
        }
        if height > 0 && self.selected - self.scroll_offset >= height {
            self.scroll_offset = self.selected - height + 1;
        }
    }
}

} // verus!

use vstd::prelude::*;
use crate::host::{Host, HostRec, recs};

verus! {

/// Some record of `s` has alias `a`.
pub open spec fn has_alias(s: Seq<HostRec>, a: Seq<char>) -> bool {
    exists|i: int| 0 <= i < s.len() && #[trigger] s[i].alias == a
}

/// The primary records, then each supplemental record whose alias is not yet present.
pub open spec fn merged(p: Seq<HostRec>, s: Seq<HostRec>) -> Seq<HostRec>
    decreases s.len(),
{
    if s.len() == 0 {
        p
    } else {
        let m = merged(p, s.drop_last());
        if has_alias(m, s.last().alias) {
            m
        } else {
            m.push(s.last())
        }
    }
}

/// `a` comes strictly before `b` in byte-wise lexicographic order, the order of `str`.
pub open spec fn bytes_lt(a: Seq<u8>, b: Seq<u8>) -> bool
    decreases a.len(),
{
    if a.len() == 0 {
        b.len() > 0
    } else if b.len() == 0 {
        false
    } else if a[0] != b[0] {
        a[0] < b[0]
    } else {
        bytes_lt(a.drop_first(), b.drop_first())
    }
}

/// The UTF-8 encoding of a text, by which strings are ordered.
pub open spec fn utf8(s: Seq<char>) -> Seq<u8> {
    vstd::utf8::encode_utf8(s)
}

/// `x` comes strictly before `y` by (group, alias).
pub open spec fn key_lt(x: HostRec, y: HostRec) -> bool {
    bytes_lt(utf8(x.group), utf8(y.group)) || (utf8(x.group) == utf8(y.group) && bytes_lt(
        utf8(x.alias),
        utf8(y.alias),
    ))
}

/// `s` with `x` placed after every record that does not come after it.
pub open spec fn insert_sorted(x: HostRec, s: Seq<HostRec>) -> Seq<HostRec>
    decreases s.len(),
{
    if s.len() == 0 {
        seq![x]
    } else if !key_lt(x, s.last()) {
        s.push(x)
    } else {
        insert_sorted(x, s.drop_last()).push(s.last())
    }
}

/// `s` in (group, alias) order, records with equal keys kept in their order.
pub open spec fn sorted_hosts(s: Seq<HostRec>) -> Seq<HostRec>
    decreases s.len(),
{
    if s.len() == 0 {
        Seq::empty()
    } else {
        insert_sorted(s.last(), sorted_hosts(s.drop_last()))
    }
}

/// The directory built from the primary and the supplemental records.
pub open spec fn loaded(p: Seq<HostRec>, s: Seq<HostRec>) -> Seq<HostRec> {
    sorted_hosts(merged(p, s))
}

/// Whether `a` comes strictly before `b` as strings.
pub fn text_lt(a: &String, b: &String) -> (r: bool)
    ensures
        r == bytes_lt(utf8(a@), utf8(b@)),
{
    let x = a.as_str().as_bytes();
    let y = b.as_str().as_bytes();
    let mut i: usize = 0;
    assert(x@.skip(0) =~= x@);
    assert(y@.skip(0) =~= y@);
    while i < x.len() && i < y.len() && x[i] == y[i]
        invariant
            i <= x.len(),
            i <= y.len(),
            x@ == utf8(a@),
            y@ == utf8(b@),
            bytes_lt(x@, y@) == bytes_lt(x@.skip(i as int), y@.skip(i as int)),
        decreases x.len() - i,
    {
        assert(x@.skip(i as int).drop_first() =~= x@.skip(i + 1));
        assert(y@.skip(i as int).drop_first() =~= y@.skip(i + 1));
        i = i + 1;
    }
    if i == x.len() {
        i < y.len()
    } else if i == y.len() {
        false
    } else {
        x[i] < y[i]
    }
}

/// Whether `x` comes strictly before `y` by (group, alias).
pub fn host_lt(x: &Host, y: &Host) -> (r: bool)
    ensures
        r == key_lt(x@, y@),
{
    if text_lt(&x.group, &y.group) {
        true
    } else if text_lt(&y.group, &x.group) {
        false
    } else {
        proof {
            lemma_bytes_trichotomy(utf8(x.group@), utf8(y.group@));
        }
        text_lt(&x.alias, &y.alias)
    }
}

/// Of two byte strings, one comes first or they are equal.
pub proof fn lemma_bytes_trichotomy(a: Seq<u8>, b: Seq<u8>)
    ensures
        bytes_lt(a, b) || bytes_lt(b, a) || a == b,
    decreases a.len(),
{
    if a.len() > 0 && b.len() > 0 && a[0] == b[0] {
        lemma_bytes_trichotomy(a.drop_first(), b.drop_first());
        if a.drop_first() == b.drop_first() {
            assert(a =~= seq![a[0]] + a.drop_first());
            assert(b =~= seq![b[0]] + b.drop_first());
        }
    } else if a.len() == 0 && b.len() == 0 {
        assert(a =~= b);
    }
}

/// Places `x` into `v` after every record that does not come after it.
pub fn insert_host(v: &mut Vec<Host>, x: Host)
    ensures
        recs(final(v)@) == insert_sorted(x@, recs(old(v)@)),
{
    let ghost s = recs(v@);
    let mut j: usize = v.len();
    assert(s.take(j as int) =~= s);
    assert(s.skip(j as int) =~= Seq::<HostRec>::empty());
    while j > 0 && host_lt(&x, &v[j - 1])
        invariant
            j <= v.len(),
            s == recs(v@),
            insert_sorted(x@, s) == insert_sorted(x@, s.take(j as int)) + s.skip(j as int),
        decreases j,
    {
        assert(s.take(j as int).drop_last() =~= s.take(j - 1));
        assert(s.take(j as int).last() == s[j - 1]);
        assert(s.skip(j - 1) =~= seq![s[j - 1]] + s.skip(j as int));
        assert(insert_sorted(x@, s.take(j - 1)).push(s[j - 1]) + s.skip(j as int) =~= insert_sorted(
            x@,
            s.take(j - 1),
        ) + s.skip(j - 1));
        j = j - 1;
    }
    if j == 0 {
        assert(s.take(0) =~= Seq::<HostRec>::empty());
    } else {
        assert(s.take(j as int).last() == s[j - 1]);
    }
    let ghost xv = x@;
    v.insert(j, x);
    assert(recs(v@) =~= s.take(j as int).push(xv) + s.skip(j as int));
}

/// The records of `v` in (group, alias) order, records with equal keys kept in their order.
pub fn sort_hosts(v: Vec<Host>) -> (r: Vec<Host>)
    ensures
        recs(r@) == sorted_hosts(recs(v@)),
{
    let ghost orig = v@;
    let mut rest = v;
    let mut r: Vec<Host> = Vec::new();
    let mut k: usize = 0;
    assert(orig.len() == rest.len());
    assert(recs(orig.take(0)) =~= Seq::<HostRec>::empty());
    while rest.len() > 0
        invariant
            k <= orig.len(),
            rest@ == orig.skip(k as int),
            k + rest.len() == orig.len(),
            orig.len() <= usize::MAX,
            recs(r@) == sorted_hosts(recs(orig.take(k as int))),
        decreases rest.len(),
    {
        let h = rest.remove(0);
        assert(recs(orig.take(k + 1)).drop_last() =~= recs(orig.take(k as int)));
        assert(recs(orig.take(k + 1)).last() == h@);
        insert_host(&mut r, h);
        assert(rest@ =~= orig.skip(k + 1));
        k = k + 1;
    }
    assert(orig.take(k as int) =~= orig);
    r
}

/// Whether some record of `v` has alias `a`.
pub fn contains_alias(v: &Vec<Host>, a: &String) -> (r: bool)
    ensures
        r == has_alias(recs(v@), a@),
{
    let mut i: usize = 0;
    while i < v.len()
        invariant
            i <= v.len(),
            forall|j: int| 0 <= j < i ==> v@[j].alias@ != a@,
        decreases v.len() - i,
    {
        if v[i].alias == *a {
            assert(recs(v@)[i as int].alias == a@);
            return true;
        }
        i = i + 1;
    }
    assert forall|j: int| 0 <= j < recs(v@).len() implies #[trigger] recs(v@)[j].alias != a@ by {
        assert(recs(v@)[j] == v@[j]@);
    }
    false
}

/// The primary records, then each supplemental record whose alias is not yet present.
pub fn merge_hosts(primary: Vec<Host>, supplemental: Vec<Host>) -> (r: Vec<Host>)
    ensures
        recs(r@) == merged(recs(primary@), recs(supplemental@)),
{
    let ghost p = recs(primary@);
    let ghost orig = supplemental@;
    let mut hosts = primary;
    let mut rest = supplemental;
    let mut k: usize = 0;
    assert(orig.len() == rest.len());
    assert(recs(orig.take(0)) =~= Seq::<HostRec>::empty());
    while rest.len() > 0
        invariant
            k <= orig.len(),
            rest@ == orig.skip(k as int),
            k + rest.len() == orig.len(),
            orig.len() <= usize::MAX,
            recs(hosts@) == merged(p, recs(orig.take(k as int))),
        decreases rest.len(),
    {
        let h = rest.remove(0);
        assert(recs(orig.take(k + 1)).drop_last() =~= recs(orig.take(k as int)));
        assert(recs(orig.take(k + 1)).last() == h@);
        if !contains_alias(&hosts, &h.alias) {
            let ghost before = hosts@;
            hosts.push(h);
            assert(recs(hosts@) =~= recs(before).push(h@));
        }
        assert(rest@ =~= orig.skip(k + 1));
        k = k + 1;
    }
    assert(orig.take(k as int) =~= orig);
    hosts
}

/// The directory: the primary records merged with the supplemental ones, where these
/// could be read, in (group, alias) order.
pub fn load_hosts(primary: Vec<Host>, supplemental: Option<Vec<Host>>) -> (r: Vec<Host>)
    ensures
        recs(r@) == loaded(
            recs(primary@),
            match supplemental {
                Some(s) => recs(s@),
                None => Seq::empty(),
            },
        ),
{
    let extra = match supplemental {
        Some(s) => s,
        None => {
            let e: Vec<Host> = Vec::new();
            assert(recs(e@) =~= Seq::<HostRec>::empty());
            e
        },
    };
    let merged_hosts = merge_hosts(primary, extra);
    sort_hosts(merged_hosts)
}

/// The texts of a sequence of strings.
pub open spec fn texts(v: Seq<String>) -> Seq<Seq<char>> {
    v.map_values(|x: String| x@)
}

/// Each text comes strictly before the next, so none occurs twice.
pub open spec fn strictly_sorted(s: Seq<Seq<char>>) -> bool {
    forall|i: int, j: int| 0 <= i < j < s.len() ==> bytes_lt(utf8(#[trigger] s[i]), utf8(#[trigger] s[j]))
}

/// Some record of `hs` has group label `g`.
pub open spec fn has_group(hs: Seq<HostRec>, g: Seq<char>) -> bool {
    exists|j: int| 0 <= j < hs.len() && #[trigger] hs[j].group == g
}

/// Texts with the same encoding are the same text.
pub proof fn lemma_utf8_injective(a: Seq<char>, b: Seq<char>)
    requires
        utf8(a) == utf8(b),
    ensures
        a == b,
{
    vstd::utf8::encode_utf8_decode_utf8(a);
    vstd::utf8::encode_utf8_decode_utf8(b);
}

/// Adds `g` to the strictly sorted labels `v`, unless it is there already.
fn insert_label(v: &mut Vec<String>, g: String)
    requires
        strictly_sorted(texts(old(v)@)),
    ensures
        strictly_sorted(texts(final(v)@)),
        forall|t: Seq<char>| #[trigger] texts(final(v)@).contains(t) <==> (texts(old(v)@).contains(t) || t == g@),
{
    let ghost s = texts(v@);
    let mut j: usize = 0;
    while j < v.len() && text_lt(&v[j], &g)
        invariant
            j <= v.len(),
            s == texts(v@),
            forall|k: int| 0 <= k < j ==> bytes_lt(utf8(#[trigger] s[k]), utf8(g@)),
        decreases v.len() - j,
    {
        j = j + 1;
    }
    if j < v.len() && v[j] == g {
        assert(s[j as int] == g@);
        return ;
    }
    proof {
        if j < v.len() {
            lemma_bytes_trichotomy(utf8(s[j as int]), utf8(g@));
            if utf8(s[j as int]) == utf8(g@) {
                lemma_utf8_injective(s[j as int], g@);
            }
        }
    }
    let ghost gv = g@;
    v.insert(j, g);
    let ghost r = texts(v@);
    assert(r =~= s.take(j as int).push(gv) + s.skip(j as int));
    assert forall|a: int, b: int| 0 <= a < b < r.len() implies bytes_lt(utf8(#[trigger] r[a]), utf8(#[trigger] r[b])) by {
        if b < j {
            assert(r[a] == s[a] && r[b] == s[b]);
        } else if b == j {
            assert(r[a] == s[a]);
        } else if a == j {
            assert(r[b] == s[b - 1]);
            if b - 1 > j {
                lemma_bytes_lt_transitive(utf8(gv), utf8(s[j as int]), utf8(s[b - 1]));
            }
        } else if a < j {
            assert(r[a] == s[a] && r[b] == s[b - 1]);
            lemma_bytes_lt_transitive(utf8(s[a]), utf8(gv), utf8(s[j as int]));
            if b - 1 > j {
                lemma_bytes_lt_transitive(utf8(s[a]), utf8(s[j as int]), utf8(s[b - 1]));
            }
        } else {
            assert(r[a] == s[a - 1] && r[b] == s[b - 1]);
        }
    }
    assert forall|t: Seq<char>| #[trigger] r.contains(t) <==> (s.contains(t) || t == gv) by {
        if r.contains(t) {
            let k = choose|k: int| 0 <= k < r.len() && r[k] == t;
            if k < j {
                assert(s[k] == t);
            } else if k > j {
                assert(s[k - 1] == t);
            }
        }
        if s.contains(t) {
            let k = choose|k: int| 0 <= k < s.len() && s[k] == t;
            if k < j {
                assert(r[k] == t);
            } else {
                assert(r[k + 1] == t);
            }
        }
        if t == gv {
            assert(r[j as int] == t);
        }
    }
}

/// The distinct group labels of the directory, in ascending order.
pub fn group_labels(hosts: &Vec<Host>) -> (r: Vec<String>)
    ensures
        strictly_sorted(texts(r@)),
        forall|g: Seq<char>| #[trigger] texts(r@).contains(g) <==> has_group(recs(hosts@), g),
{
    let mut r: Vec<String> = Vec::new();
    let mut i: usize = 0;
    assert(texts(r@) =~= Seq::<Seq<char>>::empty());
    while i < hosts.len()
        invariant
            i <= hosts.len(),
            strictly_sorted(texts(r@)),
            forall|g: Seq<char>| #[trigger] texts(r@).contains(g) <==> has_group(
                recs(hosts@).take(i as int),
                g,
            ),
        decreases hosts.len() - i,
    {
        let ghost before = texts(r@);
        insert_label(&mut r, hosts[i].group.clone());
        assert forall|g: Seq<char>| #[trigger] texts(r@).contains(g) <==> has_group(
            recs(hosts@).take(i + 1),
            g,
        ) by {
            let t0 = recs(hosts@).take(i as int);
            let t1 = recs(hosts@).take(i + 1);
            assert(t1[i as int] == hosts@[i as int]@);
            if g == hosts@[i as int].group@ {
                assert(t1[i as int].group == g);
            }
            if before.contains(g) {
                assert(has_group(t0, g));
            }
            if has_group(t0, g) {
                let j = choose|j: int| 0 <= j < t0.len() && #[trigger] t0[j].group == g;
                assert(t1[j] == t0[j]);
            }
            if has_group(t1, g) {
                let j = choose|j: int| 0 <= j < t1.len() && #[trigger] t1[j].group == g;
                if j < i {
                    assert(t1[j] == t0[j]);
                    assert(before.contains(g));
                }
            }
        }
        i = i + 1;
    }
    assert(recs(hosts@).take(i as int) =~= recs(hosts@));
    r
}

/// `x` and `y` have the same (group, alias) key.
pub open spec fn same_key(x: HostRec, y: HostRec) -> bool {
    utf8(x.group) == utf8(y.group) && utf8(x.alias) == utf8(y.alias)
}

/// No record comes strictly before one that precedes it.
pub open spec fn key_ordered(s: Seq<HostRec>) -> bool {
    forall|i: int, j: int| 0 <= i < j < s.len() ==> !key_lt(#[trigger] s[j], #[trigger] s[i])
}

/// No byte string comes before itself.
pub proof fn lemma_bytes_lt_irreflexive(a: Seq<u8>)
    ensures
        !bytes_lt(a, a),
    decreases a.len(),
{
    if a.len() > 0 {
        lemma_bytes_lt_irreflexive(a.drop_first());
    }
}

/// The byte-wise order is transitive.
pub proof fn lemma_bytes_lt_transitive(a: Seq<u8>, b: Seq<u8>, c: Seq<u8>)
    requires
        bytes_lt(a, b),
        bytes_lt(b, c),
    ensures
        bytes_lt(a, c),
    decreases a.len(),
{
    if a.len() > 0 && b.len() > 0 && c.len() > 0 && a[0] == b[0] && b[0] == c[0] {
        lemma_bytes_lt_transitive(a.drop_first(), b.drop_first(), c.drop_first());
    }
}

/// The (group, alias) order is a strict order.
pub proof fn lemma_key_lt_strict(x: HostRec, y: HostRec, z: HostRec)
    ensures
        !key_lt(x, x),
        key_lt(x, y) && key_lt(y, z) ==> key_lt(x, z),
        key_lt(x, y) ==> !key_lt(y, x),
{
    lemma_bytes_lt_irreflexive(utf8(x.group));
    lemma_bytes_lt_irreflexive(utf8(x.alias));
    if key_lt(x, y) && key_lt(y, z) {
        if bytes_lt(utf8(x.group), utf8(y.group)) && bytes_lt(utf8(y.group), utf8(z.group)) {
            lemma_bytes_lt_transitive(utf8(x.group), utf8(y.group), utf8(z.group));
        }
        if utf8(x.group) == utf8(y.group) && utf8(y.group) == utf8(z.group) {
            lemma_bytes_lt_transitive(utf8(x.alias), utf8(y.alias), utf8(z.alias));
        }
    }
    if key_lt(x, y) && key_lt(y, x) {
        if bytes_lt(utf8(x.group), utf8(y.group)) && bytes_lt(utf8(y.group), utf8(x.group)) {
            lemma_bytes_lt_transitive(utf8(x.group), utf8(y.group), utf8(x.group));
        }
        if utf8(x.group) == utf8(y.group) {
            lemma_bytes_lt_irreflexive(utf8(x.group));
            lemma_bytes_lt_transitive(utf8(x.alias), utf8(y.alias), utf8(x.alias));
        }
    }
}

/// Of two records, one comes first or their keys are the same.
pub proof fn lemma_key_total(x: HostRec, y: HostRec)
    ensures
        key_lt(x, y) || key_lt(y, x) || same_key(x, y),
{
    lemma_bytes_trichotomy(utf8(x.group), utf8(y.group));
    lemma_bytes_trichotomy(utf8(x.alias), utf8(y.alias));
}

/// "Does not come after" is transitive.
pub proof fn lemma_key_le_transitive(x: HostRec, y: HostRec, z: HostRec)
    requires
        !key_lt(y, x),
        !key_lt(z, y),
    ensures
        !key_lt(z, x),
{
    lemma_key_total(x, y);
    lemma_key_lt_strict(z, x, y);
}

/// What `insert_sorted` holds: one record more, each of them `x` or one of `s`.
pub proof fn lemma_insert_sorted_members(x: HostRec, s: Seq<HostRec>)
    ensures
        insert_sorted(x, s).len() == s.len() + 1,
        forall|k: int|
            0 <= k < s.len() + 1 ==> #[trigger] insert_sorted(x, s)[k] == x || s.contains(
                insert_sorted(x, s)[k],
            ),
    decreases s.len(),
{
    if s.len() > 0 && key_lt(x, s.last()) {
        lemma_insert_sorted_members(x, s.drop_last());
        let inner = insert_sorted(x, s.drop_last());
        assert forall|k: int| 0 <= k < s.len() + 1 implies #[trigger] insert_sorted(x, s)[k] == x
            || s.contains(insert_sorted(x, s)[k]) by {
            if k < inner.len() {
                if inner[k] != x {
                    let m = choose|m: int| 0 <= m < s.drop_last().len() && s.drop_last()[m] == inner[k];
                    assert(s[m] == inner[k]);
                }
            } else {
                assert(s[s.len() - 1] == s.last());
            }
        }
    } else if s.len() > 0 {
        assert forall|k: int| 0 <= k < s.len() + 1 implies #[trigger] insert_sorted(x, s)[k] == x
            || s.contains(insert_sorted(x, s)[k]) by {
            if k < s.len() {
                assert(s[k] == insert_sorted(x, s)[k]);
            }
        }
    }
}

/// Inserting into an ordered sequence keeps it ordered.
pub proof fn lemma_insert_sorted_ordered(x: HostRec, s: Seq<HostRec>)
    requires
        key_ordered(s),
    ensures
        key_ordered(insert_sorted(x, s)),
    decreases s.len(),
{
    lemma_insert_sorted_members(x, s);
    if s.len() == 0 {
    } else if !key_lt(x, s.last()) {
        let r = s.push(x);
        assert forall|i: int, j: int| 0 <= i < j < r.len() implies !key_lt(
            #[trigger] r[j],
            #[trigger] r[i],
        ) by {
            if j == s.len() {
                if i < s.len() - 1 {
                    lemma_key_le_transitive(s[i], s.last(), x);
                }
            } else {
                assert(r[i] == s[i] && r[j] == s[j]);
            }
        }
    } else {
        let l = s.last();
        let inner = insert_sorted(x, s.drop_last());
        lemma_insert_sorted_ordered(x, s.drop_last());
        lemma_insert_sorted_members(x, s.drop_last());
        let r = inner.push(l);
        assert forall|i: int, j: int| 0 <= i < j < r.len() implies !key_lt(
            #[trigger] r[j],
            #[trigger] r[i],
        ) by {
            if j == inner.len() {
                if inner[i] == x {
                    lemma_key_lt_strict(x, l, x);
                } else {
                    let m = choose|m: int|
                        0 <= m < s.drop_last().len() && s.drop_last()[m] == inner[i];
                    assert(s[m] == inner[i]);
                    assert(s[s.len() - 1] == l);
                }
            } else {
                assert(r[i] == inner[i] && r[j] == inner[j]);
            }
        }
    }
}

/// The directory order puts every record after those that come before it.
pub proof fn lemma_sorted_hosts_ordered(s: Seq<HostRec>)
    ensures
        key_ordered(sorted_hosts(s)),
    decreases s.len(),
{
    if s.len() > 0 {
        lemma_sorted_hosts_ordered(s.drop_last());
        lemma_insert_sorted_ordered(s.last(), sorted_hosts(s.drop_last()));
    }
}

/// Ordering a sequence that is already ordered leaves it as it is.
pub proof fn lemma_sort_of_ordered(s: Seq<HostRec>)
    requires
        key_ordered(s),
    ensures
        sorted_hosts(s) == s,
    decreases s.len(),
{
    if s.len() > 0 {
        let d = s.drop_last();
        assert(key_ordered(d)) by {
            assert forall|i: int, j: int| 0 <= i < j < d.len() implies !key_lt(
                #[trigger] d[j],
                #[trigger] d[i],
            ) by {
                assert(d[i] == s[i] && d[j] == s[j]);
            }
        }
        lemma_sort_of_ordered(d);
        if d.len() == 0 {
            assert(seq![s.last()] =~= s);
        } else {
            assert(d.last() == s[s.len() - 2]);
            assert(d.push(s.last()) =~= s);
        }
    }
}

/// Any directory is in (group, alias) order, and loading it again, with nothing to merge
/// in, gives it back unchanged.
pub proof fn lemma_reload_idempotent(p: Seq<HostRec>, s: Seq<HostRec>)
    ensures
        key_ordered(loaded(p, s)),
        loaded(loaded(p, s), Seq::empty()) == loaded(p, s),
{
    lemma_sorted_hosts_ordered(merged(p, s));
    lemma_sort_of_ordered(loaded(p, s));
}

/// No alias occurs twice in `s`.
pub open spec fn aliases_unique(s: Seq<HostRec>) -> bool {
    forall|i: int, j: int| 0 <= i < j < s.len() ==> (#[trigger] s[i]).alias != (#[trigger] s[j]).alias
}

/// Merging keeps the primary records first and in order; every record added after them
/// comes from the supplemental ones and has an alias that no primary record has; no alias
/// is added twice, so primary records with distinct aliases give a result with distinct
/// aliases; every supplemental alias that the primary records lack is present, and a
/// supplemental record is present itself when no earlier one has its alias.
pub proof fn lemma_merge_precedence(p: Seq<HostRec>, s: Seq<HostRec>)
    ensures
        p.len() <= merged(p, s).len(),
        merged(p, s).take(p.len() as int) == p,
        forall|k: int|
            p.len() <= k < merged(p, s).len() ==> s.contains(#[trigger] merged(p, s)[k])
                && !has_alias(p, merged(p, s)[k].alias),
        forall|k: int, l: int|
            p.len() <= k < l < merged(p, s).len() ==> (#[trigger] merged(p, s)[k]).alias
                != (#[trigger] merged(p, s)[l]).alias,
        aliases_unique(p) ==> aliases_unique(merged(p, s)),
        forall|j: int|
            0 <= j < s.len() && !has_alias(p, #[trigger] s[j].alias) ==> has_alias(
                merged(p, s),
                s[j].alias,
            ),
        forall|j: int|
            0 <= j < s.len() && !has_alias(p, #[trigger] s[j].alias) && (forall|i: int|
                0 <= i < j ==> s[i].alias != s[j].alias) ==> merged(p, s).contains(s[j]),
    decreases s.len(),
{
    if s.len() == 0 {
        assert(p.take(p.len() as int) =~= p);
    } else {
        let d = s.drop_last();
        let x = s.last();
        let m = merged(p, d);
        lemma_merge_precedence(p, d);
        let r = merged(p, s);
        assert(r.take(p.len() as int) =~= m.take(p.len() as int));
        assert forall|k: int| 0 <= k < m.len() implies #[trigger] r[k] == m[k] by {}
        assert forall|k: int| p.len() <= k < r.len() implies s.contains(#[trigger] r[k])
            && !has_alias(p, r[k].alias) by {
            if k < m.len() {
                let i = choose|i: int| 0 <= i < d.len() && d[i] == m[k];
                assert(s[i] == m[k]);
            } else {
                assert(s[s.len() - 1] == x);
                if has_alias(p, x.alias) {
                    let i = choose|i: int| 0 <= i < p.len() && #[trigger] p[i].alias == x.alias;
                    assert(m.take(p.len() as int)[i] == m[i]);
                    assert(m[i].alias == x.alias);
                }
            }
        }
        assert forall|k: int, l: int| p.len() <= k < l < r.len() implies (#[trigger] r[k]).alias
            != (#[trigger] r[l]).alias by {
            if l == m.len() {
                assert(m[k].alias == r[k].alias);
            }
        }
        if aliases_unique(p) {
            assert forall|i: int, j: int| 0 <= i < j < r.len() implies (#[trigger] r[i]).alias
                != (#[trigger] r[j]).alias by {
                if j < p.len() {
                    assert(m.take(p.len() as int)[i] == m[i]);
                    assert(m.take(p.len() as int)[j] == m[j]);
                } else if i < p.len() {
                    assert(m.take(p.len() as int)[i] == m[i]);
                    if r[i].alias == r[j].alias {
                        assert(p[i].alias == r[j].alias);
                    }
                } else if j == m.len() {
                    assert(m[i].alias == r[i].alias);
                }
            }
        }
        assert forall|j: int| 0 <= j < s.len() && !has_alias(p, #[trigger] s[j].alias) implies has_alias(
            r,
            s[j].alias,
        ) by {
            if j < d.len() {
                assert(d[j] == s[j]);
                let k = choose|k: int| 0 <= k < m.len() && #[trigger] m[k].alias == d[j].alias;
                assert(r[k] == m[k]);
            } else if !has_alias(m, x.alias) {
                assert(r[m.len() as int] == x);
            }
        }
        assert forall|j: int|
            0 <= j < s.len() && !has_alias(p, #[trigger] s[j].alias) && (forall|i: int|
                0 <= i < j ==> s[i].alias != s[j].alias) implies r.contains(s[j]) by {
            if j < d.len() {
                assert(d[j] == s[j]);
                assert(forall|i: int| 0 <= i < j ==> d[i] == s[i]);
                let k = choose|k: int| 0 <= k < m.len() && m[k] == d[j];
                assert(r[k] == m[k]);
            } else {
                if has_alias(m, x.alias) {
                    let k = choose|k: int| 0 <= k < m.len() && #[trigger] m[k].alias == x.alias;
                    if k < p.len() {
                        assert(m.take(p.len() as int)[k] == m[k]);
                        assert(p[k].alias == x.alias);
                    } else {
                        let i = choose|i: int| 0 <= i < d.len() && d[i] == m[k];
                        assert(s[i] == d[i]);
                    }
                }
                assert(r[m.len() as int] == x);
            }
        }
    }
}

} // verus!

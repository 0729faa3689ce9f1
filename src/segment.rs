//! Memory segments and the merging of adjacent ones.

use vstd::prelude::*;

verus! {

/// What a segment is, mathematically: a load address and its bytes.
pub struct SegModel {
    pub addr: u32,
    pub data: Seq<u8>,
}

/// End address of a segment, as an unbounded integer.
pub open spec fn seg_end(s: SegModel) -> int {
    s.addr + s.data.len()
}

/// Whether `b` starts exactly where `a` ends.
pub open spec fn adjacent(a: SegModel, b: SegModel) -> bool {
    seg_end(a) == b.addr as int
}

/// A contiguous span of firmware memory.
pub struct CodeSegment {
    pub addr: u32,
    pub data: Vec<u8>,
}

impl View for CodeSegment {
    type V = SegModel;

    open spec fn view(&self) -> SegModel {
        SegModel { addr: self.addr, data: self.data@ }
    }
}

/// A unit of output: bytes to be written verbatim at `addr`.
pub struct RomSegment {
    pub addr: u32,
    pub data: Vec<u8>,
}

/// The models of a list of segments.
pub open spec fn models(v: Seq<CodeSegment>) -> Seq<SegModel> {
    v.map_values(|s: CodeSegment| s@)
}

/// Stable insertion of `x` into `t`: after every element whose address is not
/// greater than its own.
pub open spec fn insert_sorted(t: Seq<SegModel>, x: SegModel) -> Seq<SegModel>
    decreases t.len(),
{
    if t.len() == 0 {
        seq![x]
    } else if t.last().addr <= x.addr {
        t.push(x)
    } else {
        insert_sorted(t.drop_last(), x).push(t.last())
    }
}

/// Stable sort by address.
pub open spec fn sort_by_addr(s: Seq<SegModel>) -> Seq<SegModel>
    decreases s.len(),
{
    if s.len() == 0 {
        seq![]
    } else {
        insert_sorted(sort_by_addr(s.drop_last()), s.last())
    }
}

/// Left fold over an address-ordered list: a segment that starts where the
/// running last one ends is appended to it, any other starts a new one.
pub open spec fn coalesce(s: Seq<SegModel>) -> Seq<SegModel>
    decreases s.len(),
{
    if s.len() == 0 {
        seq![]
    } else {
        let m = coalesce(s.drop_last());
        let x = s.last();
        if m.len() > 0 && adjacent(m.last(), x) {
            m.update(m.len() - 1, SegModel { addr: m.last().addr, data: m.last().data + x.data })
        } else {
            m.push(x)
        }
    }
}

/// The merged form of an unordered list of segments.
pub open spec fn merged(s: Seq<SegModel>) -> Seq<SegModel> {
    coalesce(sort_by_addr(s))
}

/// Addresses do not decrease along the list.
pub open spec fn sorted_by_addr(s: Seq<SegModel>) -> bool {
    forall|i: int, j: int| 0 <= i < j < s.len() ==> s[i].addr <= s[j].addr
}

/// No element starts where its predecessor ends.
pub open spec fn none_adjacent(s: Seq<SegModel>) -> bool {
    forall|i: int| 0 <= i < s.len() - 1 ==> !adjacent(#[trigger] s[i], s[i + 1])
}

/// No two elements share an address.
pub open spec fn distinct_addrs(s: Seq<SegModel>) -> bool {
    forall|i: int, j: int| 0 <= i < s.len() && 0 <= j < s.len() && i != j ==> s[i].addr != s[j].addr
}

proof fn lemma_insert_at(t: Seq<SegModel>, x: SegModel, pos: int)
    requires
        0 <= pos <= t.len(),
        pos == 0 || t[pos - 1].addr <= x.addr,
        forall|j: int| pos <= j < t.len() ==> t[j].addr > x.addr,
    ensures
        insert_sorted(t, x) == t.insert(pos, x),
    decreases t.len(),
{
    if t.len() == 0 {
        assert(t.insert(pos, x) =~= seq![x]);
    } else if t.last().addr <= x.addr {
        assert(pos == t.len());
        assert(t.insert(pos, x) =~= t.push(x));
    } else {
        lemma_insert_at(t.drop_last(), x, pos);
        assert(t.insert(pos, x) =~= t.drop_last().insert(pos, x).push(t.last()));
    }
}

/// Moves `x` into the address-ordered `v`, after every element whose address
/// is not greater than its own.
fn insert_segment(v: &mut Vec<CodeSegment>, x: CodeSegment)
    ensures
        models(final(v)@) == insert_sorted(models(old(v)@), x@),
{
    let ghost t = models(v@);
    let mut pos: usize = v.len();
    while pos > 0 && v[pos - 1].addr > x.addr
        invariant
            pos <= v@.len(),
            t == models(v@),
            forall|j: int| pos <= j < t.len() ==> t[j].addr > x.addr,
        decreases pos,
    {
        pos = pos - 1;
    }
    proof {
        lemma_insert_at(t, x@, pos as int);
    }
    v.insert(pos, x);
    assert(models(v@) =~= t.insert(pos as int, x@));
}

/// Sorts `segments` by address, keeping the order of equal addresses, and
/// joins every run of adjacent segments into one.
pub fn merge_adjacent_segments(segments: Vec<CodeSegment>) -> (r: Vec<CodeSegment>)
    ensures
        models(r@) == merged(models(segments@)),
{
    let ghost orig = models(segments@);
    let mut rest = segments;
    let mut sorted: Vec<CodeSegment> = Vec::new();
    let ghost k: int = 0;
    while rest.len() > 0
        invariant
            0 <= k <= orig.len(),
            models(rest@) == orig.skip(k),
            models(sorted@) == sort_by_addr(orig.take(k)),
        decreases rest@.len(),
    {
        let ghost before = rest@;
        assert(models(before).len() == before.len());
        let seg = rest.remove(0);
        proof {
            assert(seg@ == models(before)[0]);
            assert(rest@ =~= before.skip(1));
            assert(models(before.skip(1)) =~= models(before).skip(1));
            assert(orig.take(k + 1) =~= orig.take(k).push(seg@));
            assert(orig.take(k + 1).drop_last() =~= orig.take(k));
            assert(models(rest@) =~= orig.skip(k + 1));
            k = k + 1;
        }
        insert_segment(&mut sorted, seg);
    }
    assert(orig.take(k) =~= orig);
    let ghost s = models(sorted@);
    let mut out: Vec<CodeSegment> = Vec::new();
    let mut cur: Option<CodeSegment> = None;
    let mut i: usize = 0;
    let n = sorted.len();
    while sorted.len() > 0
        invariant
            i as int + sorted@.len() == n,
            n == s.len(),
            models(sorted@) == s.skip(i as int),
            i == 0 <==> cur is None,
            cur is None ==> out@.len() == 0,
            cur matches Some(c) ==> models(out@).push(c@) == coalesce(s.take(i as int)),
        decreases sorted@.len(),
    {
        let ghost before = sorted@;
        assert(models(before).len() == before.len());
        let mut seg = sorted.remove(0);
        assert(seg@ == models(before)[0]);
        assert(sorted@ =~= before.skip(1));
        assert(models(before.skip(1)) =~= models(before).skip(1));
        let ghost sd = seg@;
        assert(s.take(i as int + 1).drop_last() =~= s.take(i as int));
        assert(seg@ == s[i as int]);
        assert(models(sorted@) =~= s.skip(i as int + 1));
        match cur {
            None => {
                assert(coalesce(s.take(1)) =~= seq![seg@]) by {
                    assert(s.take(1).drop_last() =~= Seq::<SegModel>::empty());
                    assert(coalesce(s.take(1).drop_last()) =~= Seq::<SegModel>::empty());
                }
                cur = Some(seg);
            }
            Some(mut c) => {
                let ghost m = models(out@).push(c@);
                if seg.addr >= c.addr && (seg.addr - c.addr) as usize == c.data.len() {
                    c.data.append(&mut seg.data);
                    assert(models(out@).push(c@) =~= m.update(m.len() - 1, SegModel { addr: m.last().addr, data: m.last().data + sd.data }));
                    cur = Some(c);
                } else {
                    out.push(c);
                    assert(models(out@).push(seg@) =~= m.push(seg@));
                    cur = Some(seg);
                }
            }
        }
        i = i + 1;
    }
    assert(s.take(i as int) =~= s);
    match cur {
        None => {
            assert(models(out@) =~= coalesce(s));
        }
        Some(c) => {
            out.push(c);
        }
    }
    out
}

proof fn lemma_insert_sorted(t: Seq<SegModel>, x: SegModel)
    requires
        sorted_by_addr(t),
    ensures
        sorted_by_addr(insert_sorted(t, x)),
        insert_sorted(t, x).len() == t.len() + 1,
    decreases t.len(),
{
    if t.len() > 0 && t.last().addr > x.addr {
        let d = t.drop_last();
        lemma_insert_sorted(d, x);
        lemma_insert_sorted_elements(d, x);
        let r = insert_sorted(d, x);
        assert forall|i: int| 0 <= i < r.len() implies r[i].addr <= t.last().addr by {
            if r[i] != x {
                let k = choose|k: int| 0 <= k < d.len() && d[k] == r[i];
                assert(t[k] == d[k]);
            }
        }
    }
}

proof fn lemma_sort_sorted(s: Seq<SegModel>)
    ensures
        sorted_by_addr(sort_by_addr(s)),
        sort_by_addr(s).len() == s.len(),
    decreases s.len(),
{
    if s.len() > 0 {
        lemma_sort_sorted(s.drop_last());
        lemma_insert_sorted(sort_by_addr(s.drop_last()), s.last());
    }
}

proof fn lemma_sort_of_sorted(s: Seq<SegModel>)
    requires
        sorted_by_addr(s),
    ensures
        sort_by_addr(s) == s,
    decreases s.len(),
{
    if s.len() > 0 {
        lemma_sort_of_sorted(s.drop_last());
        assert(s.drop_last().push(s.last()) =~= s);
    }
}

proof fn lemma_coalesce_shape(t: Seq<SegModel>)
    requires
        sorted_by_addr(t),
    ensures
        sorted_by_addr(coalesce(t)),
        none_adjacent(coalesce(t)),
        t.len() > 0 ==> coalesce(t).len() > 0 && coalesce(t).last().addr <= t.last().addr,
    decreases t.len(),
{
    if t.len() > 0 {
        let d = t.drop_last();
        lemma_coalesce_shape(d);
        let c = coalesce(d);
        let x = t.last();
        if c.len() > 0 {
            assert(c.last().addr <= x.addr);
        }
        if c.len() > 0 && adjacent(c.last(), x) {
            let r = coalesce(t);
            assert forall|i: int| 0 <= i < r.len() - 1 implies !adjacent(#[trigger] r[i], r[i + 1]) by {
                assert(!adjacent(c[i], c[i + 1]));
            }
        } else {
            let r = coalesce(t);
            assert forall|i: int| 0 <= i < r.len() - 1 implies !adjacent(#[trigger] r[i], r[i + 1]) by {
                if i < c.len() - 1 {
                    assert(!adjacent(c[i], c[i + 1]));
                }
            }
        }
    }
}

proof fn lemma_coalesce_of_separate(m: Seq<SegModel>)
    requires
        none_adjacent(m),
    ensures
        coalesce(m) == m,
    decreases m.len(),
{
    if m.len() > 0 {
        let d = m.drop_last();
        assert forall|i: int| 0 <= i < d.len() - 1 implies !adjacent(#[trigger] d[i], d[i + 1]) by {
            assert(!adjacent(m[i], m[i + 1]));
        }
        lemma_coalesce_of_separate(d);
        if d.len() > 0 {
            assert(!adjacent(m[m.len() - 2], m[m.len() - 1]));
        }
        assert(d.push(m.last()) =~= m);
    }
}

/// The merged form is ordered by address and has no two adjacent neighbours.
pub proof fn lemma_merged_shape(s: Seq<SegModel>)
    ensures
        sorted_by_addr(merged(s)),
        none_adjacent(merged(s)),
{
    lemma_sort_sorted(s);
    lemma_coalesce_shape(sort_by_addr(s));
}

/// Merging is idempotent: merging an already merged list gives it back.
pub proof fn lemma_merge_idempotent(s: Seq<SegModel>)
    ensures
        merged(merged(s)) == merged(s),
{
    lemma_merged_shape(s);
    lemma_sort_of_sorted(merged(s));
    lemma_coalesce_of_separate(merged(s));
}

proof fn lemma_insert_multiset(t: Seq<SegModel>, x: SegModel)
    ensures
        insert_sorted(t, x).to_multiset() == t.to_multiset().insert(x),
    decreases t.len(),
{
    broadcast use vstd::seq_lib::group_to_multiset_ensures;

    if t.len() == 0 {
        assert(seq![x] =~= Seq::<SegModel>::empty().push(x));
    } else if t.last().addr > x.addr {
        lemma_insert_multiset(t.drop_last(), x);
        assert(t.drop_last().push(t.last()) =~= t);
    }
}

proof fn lemma_sort_contents(s: Seq<SegModel>)
    ensures
        sort_by_addr(s).to_multiset() == s.to_multiset(),
        forall|i: int| 0 <= i < sort_by_addr(s).len() ==> s.contains(#[trigger] sort_by_addr(s)[i]),
    decreases s.len(),
{
    broadcast use vstd::seq_lib::group_to_multiset_ensures;

    lemma_sort_sorted(s);
    if s.len() > 0 {
        let d = s.drop_last();
        lemma_sort_contents(d);
        lemma_sort_sorted(d);
        lemma_insert_multiset(sort_by_addr(d), s.last());
        lemma_insert_sorted_elements(sort_by_addr(d), s.last());
        assert(d.push(s.last()) =~= s);
        let r = sort_by_addr(s);
        assert forall|i: int| 0 <= i < r.len() implies s.contains(#[trigger] r[i]) by {
            if r[i] != s.last() {
                let k = choose|k: int| 0 <= k < sort_by_addr(d).len() && sort_by_addr(d)[k] == r[i];
                let m = choose|m: int| 0 <= m < d.len() && d[m] == sort_by_addr(d)[k];
                assert(s[m] == d[m]);
            } else {
                assert(s[s.len() - 1] == s.last());
            }
        }
    }
}

proof fn lemma_insert_distinct(t: Seq<SegModel>, x: SegModel)
    requires
        distinct_addrs(t),
        forall|i: int| 0 <= i < t.len() ==> t[i].addr != x.addr,
    ensures
        distinct_addrs(insert_sorted(t, x)),
    decreases t.len(),
{
    if t.len() > 0 && t.last().addr > x.addr {
        let d = t.drop_last();
        lemma_insert_distinct(d, x);
        lemma_insert_sorted_elements(d, x);
        let r = insert_sorted(d, x);
        assert forall|i: int| 0 <= i < r.len() implies r[i].addr != t.last().addr by {
            if r[i] != x {
                let k = choose|k: int| 0 <= k < d.len() && d[k] == r[i];
                assert(t[k] == d[k]);
                assert(t[t.len() - 1] == t.last());
            }
        }
    } else if t.len() > 0 {
        let r = insert_sorted(t, x);
        assert forall|i: int, j: int|
            0 <= i < r.len() && 0 <= j < r.len() && i != j implies r[i].addr != r[j].addr by {
            if i < t.len() && j < t.len() {
                assert(r[i] == t[i] && r[j] == t[j]);
            } else if i < t.len() {
                assert(r[i] == t[i]);
            } else if j < t.len() {
                assert(r[j] == t[j]);
            }
        }
    }
}

proof fn lemma_insert_sorted_elements(t: Seq<SegModel>, x: SegModel)
    ensures
        insert_sorted(t, x).len() == t.len() + 1,
        forall|i: int|
            0 <= i < insert_sorted(t, x).len() ==> #[trigger] insert_sorted(t, x)[i] == x || t.contains(
                insert_sorted(t, x)[i],
            ),
    decreases t.len(),
{
    if t.len() > 0 && t.last().addr > x.addr {
        let d = t.drop_last();
        lemma_insert_sorted_elements(d, x);
        let r = insert_sorted(d, x);
        let rt = insert_sorted(t, x);
        assert forall|i: int| 0 <= i < rt.len() implies #[trigger] rt[i] == x || t.contains(rt[i]) by {
            if i < r.len() && r[i] != x {
                let k = choose|k: int| 0 <= k < d.len() && d[k] == r[i];
                assert(t[k] == d[k]);
            } else if i == r.len() {
                assert(t[t.len() - 1] == t.last());
            }
        }
    } else if t.len() > 0 {
        let rt = insert_sorted(t, x);
        assert forall|i: int| 0 <= i < rt.len() implies #[trigger] rt[i] == x || t.contains(rt[i]) by {
            if i < t.len() {
                assert(rt[i] == t[i]);
            }
        }
    }
}

proof fn lemma_sort_distinct(s: Seq<SegModel>)
    requires
        distinct_addrs(s),
    ensures
        distinct_addrs(sort_by_addr(s)),
    decreases s.len(),
{
    if s.len() > 0 {
        let d = s.drop_last();
        assert(distinct_addrs(d)) by {
            assert forall|i: int, j: int|
                0 <= i < d.len() && 0 <= j < d.len() && i != j implies d[i].addr != d[j].addr by {
                assert(d[i] == s[i] && d[j] == s[j]);
            }
        }
        lemma_sort_distinct(d);
        lemma_sort_contents(d);
        let sd = sort_by_addr(d);
        assert forall|i: int| 0 <= i < sd.len() implies sd[i].addr != s.last().addr by {
            let m = choose|m: int| 0 <= m < d.len() && d[m] == sd[i];
            assert(s[m] == d[m]);
            assert(s[s.len() - 1] == s.last());
        }
        lemma_insert_distinct(sd, s.last());
    }
}

proof fn lemma_ordered_unique(u1: Seq<SegModel>, u2: Seq<SegModel>)
    requires
        sorted_by_addr(u1),
        sorted_by_addr(u2),
        distinct_addrs(u1),
        distinct_addrs(u2),
        u1.to_multiset() == u2.to_multiset(),
    ensures
        u1 == u2,
    decreases u1.len(),
{
    broadcast use vstd::seq_lib::group_to_multiset_ensures;

    assert(u1.len() == u1.to_multiset().len());
    assert(u2.len() == u2.to_multiset().len());
    if u1.len() > 0 {
        let n = u1.len() - 1;
        let a = u1.last();
        let b = u2.last();
        assert(u1.contains(a)) by {
            assert(u1[n] == a);
        }
        assert(u2.contains(b)) by {
            assert(u2[n] == b);
        }
        assert(u1.to_multiset().count(a) > 0);
        assert(u2.contains(a));
        assert(u2.to_multiset().count(b) > 0);
        assert(u1.contains(b));
        let ka = choose|k: int| 0 <= k < u2.len() && u2[k] == a;
        let kb = choose|k: int| 0 <= k < u1.len() && u1[k] == b;
        assert(a.addr <= b.addr);
        assert(b.addr <= a.addr);
        assert(kb == n);
        assert(u1.remove(n) =~= u1.drop_last());
        assert(u2.remove(n) =~= u2.drop_last());
        let d1 = u1.drop_last();
        let d2 = u2.drop_last();
        assert(distinct_addrs(d1)) by {
            assert forall|i: int, j: int|
                0 <= i < d1.len() && 0 <= j < d1.len() && i != j implies d1[i].addr != d1[j].addr by {
                assert(d1[i] == u1[i] && d1[j] == u1[j]);
            }
        }
        assert(distinct_addrs(d2)) by {
            assert forall|i: int, j: int|
                0 <= i < d2.len() && 0 <= j < d2.len() && i != j implies d2[i].addr != d2[j].addr by {
                assert(d2[i] == u2[i] && d2[j] == u2[j]);
            }
        }
        lemma_ordered_unique(d1, d2);
        assert(u1 =~= d1.push(a));
        assert(u2 =~= d2.push(b));
    }
}

/// Merging does not depend on the input order: two lists that hold the same
/// segments, with no address used twice, merge to the same list.
pub proof fn lemma_merge_order_independent(s1: Seq<SegModel>, s2: Seq<SegModel>)
    requires
        s1.to_multiset() == s2.to_multiset(),
        distinct_addrs(s1),
        distinct_addrs(s2),
    ensures
        merged(s1) == merged(s2),
{
    lemma_sort_sorted(s1);
    lemma_sort_sorted(s2);
    lemma_sort_contents(s1);
    lemma_sort_contents(s2);
    lemma_sort_distinct(s1);
    lemma_sort_distinct(s2);
    lemma_ordered_unique(sort_by_addr(s1), sort_by_addr(s2));
}

} // verus!

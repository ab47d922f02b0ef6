//! The flat array layout shared by the trie nodes.
//!
//! A node is one `Vec<u32>`:
//! `head ++ [L] ++ mids ++ starts ++ [total] ++ segment_0 ++ ... ++ segment_{n-1}`
//! where `head` has `h - 1` entries, `L = h + n` for `n` branches, the mids are
//! ascending, `starts[j]` is the index where segment `j` begins, and `total`
//! is the length of the whole array (the end of the last segment).
use vstd::prelude::*;

verus! {

/// All segments one after the other.
#[verifier::opaque]
pub open spec fn flat(s: Seq<Seq<u32>>) -> Seq<u32>
    decreases s.len(),
{
    if s.len() == 0 {
        seq![]
    } else {
        flat(s.drop_last()) + s.last()
    }
}

/// Where segment `j` begins inside `flat(s)`.
pub open spec fn offset(s: Seq<Seq<u32>>, j: int) -> int {
    flat(s.take(j)).len() as int
}

/// The index where the first segment begins.
pub open spec fn layout_base(h: int, n: int) -> int {
    h + 2 * n + 1
}

/// The array of a node with the given head, branch keys and segments.
#[verifier::opaque]
pub open spec fn layout(head: Seq<u32>, mids: Seq<u32>, segs: Seq<Seq<u32>>) -> Seq<u32> {
    let h = (head.len() + 1) as int;
    let n = mids.len() as int;
    let base = layout_base(h, n);
    head + seq![(h + n) as u32] + mids + Seq::new(
        segs.len(),
        |j: int| (base + offset(segs, j)) as u32,
    ) + seq![(base + flat(segs).len()) as u32] + flat(segs)
}

/// The parts describe a node whose every index fits in a `u32`.
pub open spec fn layout_fits(head: Seq<u32>, mids: Seq<u32>, segs: Seq<Seq<u32>>) -> bool {
    &&& mids.len() == segs.len()
    &&& layout_base((head.len() + 1) as int, mids.len() as int) + flat(segs).len() <= u32::MAX
}

/// The branch keys stored in `v`.
pub open spec fn mids_of(v: Seq<u32>, h: int) -> Seq<u32> {
    v.subrange(h, v[h - 1] as int)
}

/// The index where segment `j` of `v` begins (for `j` = branch count: the total).
pub open spec fn start_of(v: Seq<u32>, h: int, j: int) -> int {
    v[v[h - 1] + j] as int
}

/// The segments stored in `v`.
pub open spec fn segs_of(v: Seq<u32>, h: int) -> Seq<Seq<u32>> {
    Seq::new(
        (v[h - 1] - h) as nat,
        |j: int| v.subrange(start_of(v, h, j), start_of(v, h, j + 1)),
    )
}

/// `v` is laid out as described above with a head of `h - 1` entries.
pub open spec fn layout_ok(v: Seq<u32>, h: int) -> bool {
    &&& 1 <= h <= v.len()
    &&& h <= v[h - 1]
    &&& 2 * v[h - 1] - h < v.len()
    &&& v.len() <= u32::MAX
    &&& v == layout(v.take(h - 1), mids_of(v, h), segs_of(v, h))
}

/// `s` is strictly increasing.
pub open spec fn ascending(s: Seq<u32>) -> bool {
    forall|i: int, j: int| 0 <= i < j < s.len() ==> s[i] < s[j]
}

/// The branches as a map from branch key to segment, for distinct keys.
pub open spec fn branches(mids: Seq<u32>, segs: Seq<Seq<u32>>) -> Map<u32, Seq<u32>> {
    Map::new(
        |k: u32| mids.contains(k),
        |k: u32| segs[choose|j: int| 0 <= j < mids.len() && mids[j] == k],
    )
}

pub proof fn lemma_flat_concat(a: Seq<Seq<u32>>, b: Seq<Seq<u32>>)
    ensures
        flat(a + b) =~= flat(a) + flat(b),
    decreases b.len(),
{
    reveal(flat);
    if b.len() == 0 {
        assert(a + b =~= a);
    } else {
        lemma_flat_concat(a, b.drop_last());
        assert((a + b).drop_last() =~= a + b.drop_last());
        assert((a + b).last() == b.last());
    }
}

pub proof fn lemma_flat_single(x: Seq<u32>)
    ensures
        flat(seq![x]) =~= x,
{
    reveal(flat);
    assert(seq![x].drop_last() =~= Seq::<Seq<u32>>::empty());
    assert(flat(seq![x].drop_last()) =~= Seq::<u32>::empty());
}

/// `flat(s)` is the segments before `j`, segment `j`, and the segments after.
pub proof fn lemma_flat_at(s: Seq<Seq<u32>>, j: int)
    requires
        0 <= j < s.len(),
    ensures
        flat(s) =~= flat(s.take(j)) + s[j] + flat(s.skip(j + 1)),
        offset(s, j + 1) == offset(s, j) + s[j].len(),
        flat(s.take(j + 1)) =~= flat(s.take(j)) + s[j],
        offset(s, j + 1) <= flat(s).len(),
        flat(s).subrange(offset(s, j), offset(s, j + 1)) =~= s[j],
{
    assert(s =~= s.take(j) + (seq![s[j]] + s.skip(j + 1)));
    lemma_flat_concat(s.take(j), seq![s[j]] + s.skip(j + 1));
    lemma_flat_concat(seq![s[j]], s.skip(j + 1));
    lemma_flat_single(s[j]);
    assert(s.take(j + 1) =~= s.take(j) + seq![s[j]]);
    lemma_flat_concat(s.take(j), seq![s[j]]);
}

pub proof fn lemma_offset_all(s: Seq<Seq<u32>>)
    ensures
        offset(s, s.len() as int) == flat(s).len(),
        offset(s, 0) == 0,
{
    reveal(flat);
    assert(s.take(s.len() as int) =~= s);
    assert(s.take(0) =~= Seq::<Seq<u32>>::empty());
}

pub proof fn lemma_offset_le_total(s: Seq<Seq<u32>>, j: int)
    requires
        0 <= j <= s.len(),
    ensures
        offset(s, j) <= flat(s).len(),
    decreases s.len() - j,
{
    if j < s.len() {
        lemma_flat_at(s, j);
        lemma_offset_le_total(s, j + 1);
    } else {
        lemma_offset_all(s);
    }
}

pub proof fn lemma_offset_mono(s: Seq<Seq<u32>>, j1: int, j2: int)
    requires
        0 <= j1 <= j2 <= s.len(),
    ensures
        offset(s, j1) <= offset(s, j2) <= flat(s).len(),
    decreases j2 - j1,
{
    lemma_offset_le_total(s, j2);
    if j1 < j2 {
        lemma_flat_at(s, j2 - 1);
        lemma_offset_mono(s, j1, j2 - 1);
    }
}

/// Inserting a segment adds its length to every later offset.
pub proof fn lemma_flat_insert(s: Seq<Seq<u32>>, i: int, x: Seq<u32>)
    requires
        0 <= i <= s.len(),
    ensures
        flat(s.insert(i, x)) =~= flat(s.take(i)) + x + flat(s.skip(i)),
        flat(s.insert(i, x)).len() == flat(s).len() + x.len(),
        forall|j: int| 0 <= j <= i ==> #[trigger] offset(s.insert(i, x), j) == offset(s, j),
        forall|j: int|
            i < j <= s.len() + 1 ==> #[trigger] offset(s.insert(i, x), j) == offset(s, j - 1)
                + x.len(),
{
    assert(s.insert(i, x) =~= s.take(i) + (seq![x] + s.skip(i)));
    lemma_flat_concat(s.take(i), seq![x] + s.skip(i));
    lemma_flat_concat(seq![x], s.skip(i));
    lemma_flat_single(x);
    assert(s =~= s.take(i) + s.skip(i));
    lemma_flat_concat(s.take(i), s.skip(i));
    assert forall|j: int| 0 <= j <= i implies #[trigger] offset(s.insert(i, x), j) == offset(
        s,
        j,
    ) by {
        assert(s.insert(i, x).take(j) =~= s.take(j));
    }
    assert forall|j: int| i < j <= s.len() + 1 implies #[trigger] offset(s.insert(i, x), j)
        == offset(s, j - 1) + x.len() by {
        let t = s.take(j - 1);
        assert(s.insert(i, x).take(j) =~= t.take(i) + (seq![x] + t.skip(i)));
        lemma_flat_concat(t.take(i), seq![x] + t.skip(i));
        lemma_flat_concat(seq![x], t.skip(i));
        assert(t =~= t.take(i) + t.skip(i));
        lemma_flat_concat(t.take(i), t.skip(i));
    }
}

/// Replacing a segment changes every later offset by the change in length.
pub proof fn lemma_flat_update(s: Seq<Seq<u32>>, i: int, y: Seq<u32>)
    requires
        0 <= i < s.len(),
    ensures
        flat(s.update(i, y)) =~= flat(s.take(i)) + y + flat(s.skip(i + 1)),
        forall|j: int| 0 <= j <= i ==> #[trigger] offset(s.update(i, y), j) == offset(s, j),
        forall|j: int|
            i < j <= s.len() ==> #[trigger] offset(s.update(i, y), j) == offset(s, j) - s[i].len()
                + y.len(),
{
    let u = s.update(i, y);
    lemma_flat_at(u, i);
    assert(u.take(i) =~= s.take(i));
    assert(u.skip(i + 1) =~= s.skip(i + 1));
    assert forall|j: int| 0 <= j <= i implies #[trigger] offset(s.update(i, y), j) == offset(
        s,
        j,
    ) by {
        assert(u.take(j) =~= s.take(j));
    }
    assert forall|j: int| i < j <= s.len() implies #[trigger] offset(s.update(i, y), j) == offset(
        s,
        j,
    ) - s[i].len() + y.len() by {
        let t = s.take(j);
        lemma_flat_at(t, i);
        lemma_flat_at(u.take(j), i);
        assert(u.take(j).take(i) =~= t.take(i));
        assert(u.take(j).skip(i + 1) =~= t.skip(i + 1));
    }
}

/// A laid-out node decodes to the parts it was built from.
pub proof fn lemma_layout_decode(head: Seq<u32>, mids: Seq<u32>, segs: Seq<Seq<u32>>)
    requires
        layout_fits(head, mids, segs),
    ensures
        ({
            let v = layout(head, mids, segs);
            let h = (head.len() + 1) as int;
            let n = mids.len() as int;
            let base = layout_base(h, n);
            &&& layout_ok(v, h)
            &&& v.take(h - 1) == head
            &&& mids_of(v, h) == mids
            &&& segs_of(v, h) == segs
            &&& v[h - 1] == h + n
            &&& v.len() == base + flat(segs).len()
            &&& forall|j: int| 0 <= j <= n ==> #[trigger] start_of(v, h, j) == base + offset(segs, j)
        }),
{
    reveal(layout);
    let v = layout(head, mids, segs);
    let h = (head.len() + 1) as int;
    let n = mids.len() as int;
    let base = layout_base(h, n);
    let f = flat(segs);
    lemma_offset_all(segs);
    assert(v[h - 1] == h + n);
    assert forall|j: int| 0 <= j <= n implies #[trigger] start_of(v, h, j) == base + offset(
        segs,
        j,
    ) by {
        lemma_offset_mono(segs, j, n);
        if j < n {
            assert(v[h + n + j] == (base + offset(segs, j)) as u32);
        } else {
            assert(v[h + n + j] == (base + f.len()) as u32);
        }
    }
    assert(v.take(h - 1) =~= head);
    assert(mids_of(v, h) =~= mids);
    assert forall|j: int| 0 <= j < n implies #[trigger] segs_of(v, h)[j] == segs[j] by {
        lemma_flat_at(segs, j);
        lemma_offset_mono(segs, j + 1, n);
        assert(start_of(v, h, j) == base + offset(segs, j));
        assert(start_of(v, h, j + 1) == base + offset(segs, j + 1));
        assert(v.subrange(start_of(v, h, j), start_of(v, h, j + 1)) =~= f.subrange(
            offset(segs, j),
            offset(segs, j + 1),
        ));
    }
    assert(segs_of(v, h) =~= segs);
}

/// A well-laid-out node is the layout of its decoded parts, and those fit.
pub proof fn lemma_layout_ok_parts(v: Seq<u32>, h: int)
    requires
        layout_ok(v, h),
    ensures
        layout_fits(v.take(h - 1), mids_of(v, h), segs_of(v, h)),
        v.take(h - 1).len() + 1 == h,
{
    reveal(layout);
    let head = v.take(h - 1);
    let m = mids_of(v, h);
    let s = segs_of(v, h);
    assert(m.len() == v[h - 1] - h);
    assert(s.len() == v[h - 1] - h);
    assert(v.len() == layout(head, m, s).len());
}

/// Inserting a branch at index `i` of distinct keys adds it to the map.
pub proof fn lemma_branches_insert(mids: Seq<u32>, segs: Seq<Seq<u32>>, i: int, k: u32, x: Seq<u32>)
    requires
        ascending(mids),
        mids.len() == segs.len(),
        0 <= i <= mids.len(),
        ascending(mids.insert(i, k)),
    ensures
        branches(mids.insert(i, k), segs.insert(i, x)) =~= branches(mids, segs).insert(k, x),
{
    let m2 = mids.insert(i, k);
    let s2 = segs.insert(i, x);
    assert forall|key: u32| #[trigger] m2.contains(key) <==> (mids.contains(key) || key == k) by {
        if mids.contains(key) {
            let j = choose|j: int| 0 <= j < mids.len() && mids[j] == key;
            if j < i {
                assert(m2[j] == key);
            } else {
                assert(m2[j + 1] == key);
            }
        }
        if key == k {
            assert(m2[i] == key);
        }
        if m2.contains(key) && key != k {
            let j = choose|j: int| 0 <= j < m2.len() && m2[j] == key;
            if j < i {
                assert(mids[j] == key);
            } else {
                assert(mids[j - 1] == key);
            }
        }
    }
    assert forall|key: u32| #[trigger] m2.contains(key) implies branches(m2, s2)[key] == branches(
        mids,
        segs,
    ).insert(k, x)[key] by {
        let j2 = choose|j: int| 0 <= j < m2.len() && m2[j] == key;
        if key == k {
            assert(m2[i] == k);
            assert(j2 == i);
        } else {
            let j = choose|j: int| 0 <= j < mids.len() && mids[j] == key;
            assert(mids.contains(key));
            if j2 < i {
                assert(mids[j2] == key);
                assert(j2 == j);
            } else {
                assert(j2 != i);
                assert(mids[j2 - 1] == key);
                assert(j2 - 1 == j);
            }
        }
    }
}

/// Replacing the segment of branch `i` replaces that branch's value.
pub proof fn lemma_branches_update(mids: Seq<u32>, segs: Seq<Seq<u32>>, i: int, y: Seq<u32>)
    requires
        ascending(mids),
        mids.len() == segs.len(),
        0 <= i < mids.len(),
    ensures
        branches(mids, segs.update(i, y)) =~= branches(mids, segs).insert(mids[i], y),
{
    assert(mids.contains(mids[i]));
    assert forall|key: u32| #[trigger] mids.contains(key) implies branches(
        mids,
        segs.update(i, y),
    )[key] == branches(mids, segs).insert(mids[i], y)[key] by {
        let j = choose|j: int| 0 <= j < mids.len() && mids[j] == key;
        if key == mids[i] {
            assert(j == i);
        } else {
            assert(j != i);
        }
    }
}

/// The branch at index `i` of distinct keys maps its key to its segment.
pub proof fn lemma_branches_at(mids: Seq<u32>, segs: Seq<Seq<u32>>, i: int)
    requires
        ascending(mids),
        mids.len() == segs.len(),
        0 <= i < mids.len(),
    ensures
        branches(mids, segs).dom().contains(mids[i]),
        branches(mids, segs)[mids[i]] == segs[i],
{
    assert(mids.contains(mids[i]));
    let j = choose|j: int| 0 <= j < mids.len() && mids[j] == mids[i];
    assert(j == i);
}

/// The head of a laid-out node.
pub open spec fn head_of(v: Seq<u32>, h: int) -> Seq<u32> {
    v.take(h - 1)
}

/// What `insert_into_segment` does to a laid-out node, stated on its parts.
proof fn lemma_segment_insert_layout(
    head: Seq<u32>,
    m: Seq<u32>,
    s: Seq<Seq<u32>>,
    i: int,
    at: int,
    x: u32,
)
    requires
        layout_fits(head, m, s),
        0 <= i < m.len(),
        0 <= at <= s[i].len(),
        layout(head, m, s).len() + 1 <= u32::MAX,
    ensures
        ({
            let v0 = layout(head, m, s);
            let h = (head.len() + 1) as int;
            let n = m.len() as int;
            let l = h + n;
            let pos = layout_base(h, n) + offset(s, i) + at;
            let s2 = s.update(i, s[i].insert(at, x));
            &&& layout_fits(head, m, s2)
            &&& bumped(v0.insert(pos, x), l + i + 1, l + n, 1).update(l + n, (v0.len() + 1) as u32)
                == layout(head, m, s2)
        }),
{
    reveal(layout);
    let v0 = layout(head, m, s);
    let h = (head.len() + 1) as int;
    let n = m.len() as int;
    let l = h + n;
    let base = layout_base(h, n);
    let pos = base + offset(s, i) + at;
    let y = s[i].insert(at, x);
    let s2 = s.update(i, y);
    let f = flat(s);
    lemma_flat_at(s, i);
    lemma_flat_update(s, i, y);
    lemma_offset_all(s2);
    lemma_offset_all(s);
    assert(flat(s2) =~= f.insert(offset(s, i) + at, x));
    let v1 = v0.insert(pos, x);
    let fin = bumped(v1, l + i + 1, l + n, 1).update(l + n, (v0.len() + 1) as u32);
    let target = layout(head, m, s2);
    assert forall|k: int| 0 <= k < target.len() implies #[trigger] fin[k] == target[k] by {
        if k < l {
        } else if k < l + n {
            let j = k - l;
            lemma_offset_le_total(s2, j);
            lemma_offset_le_total(s, j);
            if j <= i {
                assert(offset(s2, j) == offset(s, j));
            } else {
                assert(offset(s2, j) == offset(s, j) + 1);
            }
        } else if k == l + n {
        } else {
            assert(target[k] == flat(s2)[k - base]);
        }
    }
    assert(fin =~= target);
}

/// The numbers stored in a laid-out node.
pub proof fn lemma_layout_numbers(v: Seq<u32>, h: int)
    requires
        layout_ok(v, h),
    ensures
        ({
            let s = segs_of(v, h);
            let n = mids_of(v, h).len() as int;
            let base = layout_base(h, n);
            &&& layout_fits(head_of(v, h), mids_of(v, h), s)
            &&& head_of(v, h).len() + 1 == h
            &&& v[h - 1] == h + n
            &&& v.len() == base + flat(s).len()
            &&& forall|j: int| 0 <= j <= n ==> #[trigger] v[h + n + j] == base + offset(s, j)
        }),
{
    let head = head_of(v, h);
    let m = mids_of(v, h);
    let s = segs_of(v, h);
    let n = m.len() as int;
    lemma_layout_ok_parts(v, h);
    lemma_layout_decode(head, m, s);
    assert forall|j: int| 0 <= j <= n implies #[trigger] v[h + n + j] == layout_base(h, n)
        + offset(s, j) by {
        assert(start_of(v, h, j) == layout_base(h, n) + offset(s, j));
    }
}

proof fn lemma_segment_insert_on(
    v0: Seq<u32>,
    head: Seq<u32>,
    m: Seq<u32>,
    s: Seq<Seq<u32>>,
    i: int,
    at: int,
    x: u32,
)
    requires
        v0 == layout(head, m, s),
        layout_fits(head, m, s),
        0 <= i < m.len(),
        0 <= at <= s[i].len(),
        v0.len() + 1 <= u32::MAX,
    ensures
        ({
            let h = (head.len() + 1) as int;
            let n = m.len() as int;
            let l = h + n;
            let pos = layout_base(h, n) + offset(s, i) + at;
            let s2 = s.update(i, s[i].insert(at, x));
            &&& layout_fits(head, m, s2)
            &&& bumped(v0.insert(pos, x), l + i + 1, l + n, 1).update(l + n, (v0.len() + 1) as u32)
                == layout(head, m, s2)
        }),
{
    lemma_segment_insert_layout(head, m, s, i, at, x);
}

/// The numbers of a laid-out node that `insert_into_segment` relies on.
proof fn lemma_segment_insert_bounds(v0: Seq<u32>, h: int, i: int, at: int)
    requires
        layout_ok(v0, h),
        0 <= i < mids_of(v0, h).len(),
        0 <= at <= segs_of(v0, h)[i].len(),
        v0.len() + 1 <= u32::MAX,
    ensures
        ({
            let n = mids_of(v0, h).len() as int;
            let l = h + n;
            &&& v0[h - 1] == l
            &&& l + n < v0.len()
            &&& l + n < v0[l + i]
            &&& v0[l + i] + at <= v0.len()
            &&& forall|k: int| l + i + 1 <= k < l + n ==> v0[k] + 1 <= u32::MAX
        }),
{
    let s = segs_of(v0, h);
    let n = mids_of(v0, h).len() as int;
    let base = layout_base(h, n);
    let l = h + n;
    lemma_layout_numbers(v0, h);
    lemma_flat_at(s, i);
    lemma_offset_le_total(s, i + 1);
    assert(v0[l + i] == base + offset(s, i));
    assert forall|k: int| l + i + 1 <= k < l + n implies v0[k] + 1 <= u32::MAX by {
        let j = k - h - n;
        lemma_offset_le_total(s, j);
        assert(v0[h + n + j] == base + offset(s, j));
    }
}

/// What `insert_into_segment` computes, stated on a laid-out node.
proof fn lemma_segment_insert_equation(v0: Seq<u32>, h: int, i: int, at: int, x: u32)
    requires
        layout_ok(v0, h),
        0 <= i < mids_of(v0, h).len(),
        0 <= at <= segs_of(v0, h)[i].len(),
        v0.len() + 1 <= u32::MAX,
    ensures
        ({
            let head = head_of(v0, h);
            let m = mids_of(v0, h);
            let s = segs_of(v0, h);
            let n = m.len() as int;
            let l = h + n;
            let s2 = s.update(i, s[i].insert(at, x));
            &&& layout_fits(head, m, s2)
            &&& bumped(v0.insert(v0[l + i] + at, x), l + i + 1, l + n, 1).update(
                l + n,
                (v0.len() + 1) as u32,
            ) == layout(head, m, s2)
        }),
{
    let head = head_of(v0, h);
    let m = mids_of(v0, h);
    let s = segs_of(v0, h);
    let n = m.len() as int;
    let base = layout_base(h, n);
    assert(v0[h + n + i] == base + offset(s, i) && layout_fits(head, m, s) && head.len() + 1
        == h) by {
        lemma_layout_numbers(v0, h);
    }
    lemma_segment_insert_on(v0, head, m, s, i, at, x);
}

/// Inserts `x` at offset `at` of the segment of branch `i`, moving the later
/// segments and updating their starts and the total.
pub fn insert_into_segment(v: &mut Vec<u32>, h: usize, i: usize, at: usize, x: u32)
    requires
        layout_ok(old(v)@, h as int),
        i < mids_of(old(v)@, h as int).len(),
        at <= segs_of(old(v)@, h as int)[i as int].len(),
        old(v)@.len() + 1 <= u32::MAX,
    ensures
        final(v)@ == layout(
            head_of(old(v)@, h as int),
            mids_of(old(v)@, h as int),
            segs_of(old(v)@, h as int).update(
                i as int,
                segs_of(old(v)@, h as int)[i as int].insert(at as int, x),
            ),
        ),
        layout_fits(
            head_of(old(v)@, h as int),
            mids_of(old(v)@, h as int),
            segs_of(old(v)@, h as int).update(
                i as int,
                segs_of(old(v)@, h as int)[i as int].insert(at as int, x),
            ),
        ),
        final(v)@.len() == old(v)@.len() + 1,
{
    proof {
        lemma_segment_insert_bounds(v@, h as int, i as int, at as int);
        lemma_segment_insert_equation(v@, h as int, i as int, at as int, x);
    }
    let l = v[h - 1] as usize;
    let pos = v[l + i] as usize + at;
    let ghost v0 = v@;
    v.insert(pos, x);
    let end = l + (l - h);
    proof {
        assert forall|k: int| l + i + 1 <= k < end implies v@[k] + 1 <= u32::MAX by {
            assert(v@[k] == v0[k]);
        }
    }
    add_to_range(v, l + i + 1, end, 1);
    let total = v.len() as u32;
    v[end] = total;
}

/// `v` with `xs` inserted at index `p`.
pub open spec fn insert_run(v: Seq<u32>, p: int, xs: Seq<u32>) -> Seq<u32> {
    v.take(p) + xs + v.skip(p)
}

/// What `insert_branch` does to a laid-out node, stated on its parts.
proof fn lemma_branch_insert_layout(
    head: Seq<u32>,
    m: Seq<u32>,
    s: Seq<Seq<u32>>,
    i: int,
    mid: u32,
    init: Seq<u32>,
)
    requires
        layout_fits(head, m, s),
        0 <= i <= m.len(),
        layout(head, m, s).len() + 2 + init.len() <= u32::MAX,
    ensures
        ({
            let v0 = layout(head, m, s);
            let h = (head.len() + 1) as int;
            let n = m.len() as int;
            let l = h + n + 1;
            let ins = layout_base(h, n) + offset(s, i);
            let v1 = v0.insert(i + h, mid).update(h - 1, l as u32).insert(l + i, ins as u32);
            let v2 = insert_run(v1, ins + 2, init);
            let v3 = bumped(bumped(v2, l, l + i + 1, 2), l + i + 1, l + n + 1, 2 + init.len() as int);
            &&& layout_fits(head, m.insert(i, mid), s.insert(i, init))
            &&& v3.update(l + n + 1, (v0.len() + 2 + init.len()) as u32) == layout(
                head,
                m.insert(i, mid),
                s.insert(i, init),
            )
        }),
{
    reveal(layout);
    let v0 = layout(head, m, s);
    let h = (head.len() + 1) as int;
    let n = m.len() as int;
    let l = h + n + 1;
    let base = layout_base(h, n);
    let ins = base + offset(s, i);
    let f = flat(s);
    let m2 = m.insert(i, mid);
    let s2 = s.insert(i, init);
    lemma_flat_insert(s, i, init);
    lemma_offset_all(s);
    lemma_offset_all(s2);
    lemma_offset_le_total(s, i);
    assert(s =~= s.take(i) + s.skip(i));
    lemma_flat_concat(s.take(i), s.skip(i));
    assert(flat(s2) =~= f.take(offset(s, i)) + init + f.skip(offset(s, i)));
    let v1 = v0.insert(i + h, mid).update(h - 1, l as u32).insert(l + i, ins as u32);
    let v2 = insert_run(v1, ins + 2, init);
    let v3 = bumped(bumped(v2, l, l + i + 1, 2), l + i + 1, l + n + 1, 2 + init.len() as int);
    let fin = v3.update(l + n + 1, (v0.len() + 2 + init.len()) as u32);
    let target = layout(head, m2, s2);
    assert(fin.len() == target.len());
    assert forall|k: int| 0 <= k < target.len() implies #[trigger] fin[k] == target[k] by {
        if k < h - 1 {
        } else if k == h - 1 {
        } else if k < l {
        } else if k < l + n + 1 {
            let j = k - l;
            lemma_offset_le_total(s2, j);
            if j < i {
                lemma_offset_le_total(s, j);
                assert(offset(s2, j) == offset(s, j));
                assert(v1[k] == v0[k - 1]);
            } else if j == i {
                assert(offset(s2, j) == offset(s, j));
            } else {
                lemma_offset_le_total(s, j - 1);
                assert(offset(s2, j) == offset(s, j - 1) + init.len());
                assert(v1[k] == v0[k - 2]);
            }
        } else if k == l + n + 1 {
        } else {
            assert(target[k] == flat(s2)[k - (base + 2)]);
            if k < ins + 2 {
                assert(v2[k] == v1[k]);
                assert(v1[k] == v0[k - 2]);
            } else if k < ins + 2 + init.len() {
            } else {
                assert(v2[k] == v1[k - init.len()]);
                assert(v1[k - init.len()] == v0[k - init.len() - 2]);
            }
        }
    }
    assert(fin =~= target);
}

proof fn lemma_branch_insert_on(
    v0: Seq<u32>,
    head: Seq<u32>,
    m: Seq<u32>,
    s: Seq<Seq<u32>>,
    i: int,
    mid: u32,
    init: Seq<u32>,
)
    requires
        v0 == layout(head, m, s),
        layout_fits(head, m, s),
        0 <= i <= m.len(),
        v0.len() + 2 + init.len() <= u32::MAX,
    ensures
        ({
            let h = (head.len() + 1) as int;
            let n = m.len() as int;
            let l = h + n + 1;
            let ins = layout_base(h, n) + offset(s, i);
            let v1 = v0.insert(i + h, mid).update(h - 1, l as u32).insert(l + i, ins as u32);
            let v2 = insert_run(v1, ins + 2, init);
            let v3 = bumped(bumped(v2, l, l + i + 1, 2), l + i + 1, l + n + 1, 2 + init.len() as int);
            &&& layout_fits(head, m.insert(i, mid), s.insert(i, init))
            &&& v3.update(l + n + 1, (v0.len() + 2 + init.len()) as u32) == layout(
                head,
                m.insert(i, mid),
                s.insert(i, init),
            )
        }),
{
    lemma_branch_insert_layout(head, m, s, i, mid, init);
}

/// The numbers of a laid-out node that `insert_branch` relies on.
proof fn lemma_branch_insert_bounds(v0: Seq<u32>, h: int, i: int, extra: int)
    requires
        layout_ok(v0, h),
        0 <= i <= mids_of(v0, h).len(),
        0 <= extra,
        v0.len() + 2 + extra <= u32::MAX,
    ensures
        ({
            let n = mids_of(v0, h).len() as int;
            let l = h + n;
            let ins = v0[l + i];
            &&& v0[h - 1] == l
            &&& l + n < v0.len()
            &&& l + n < ins <= v0.len()
            &&& forall|k: int| l <= k < l + n ==> v0[k] + 2 + extra <= u32::MAX
        }),
{
    let s = segs_of(v0, h);
    let n = mids_of(v0, h).len() as int;
    let base = layout_base(h, n);
    let l = h + n;
    lemma_layout_numbers(v0, h);
    lemma_offset_le_total(s, i);
    assert(v0[l + i] == base + offset(s, i));
    assert forall|k: int| l <= k < l + n implies v0[k] + 2 + extra <= u32::MAX by {
        let j = k - h - n;
        lemma_offset_le_total(s, j);
        assert(v0[h + n + j] == base + offset(s, j));
    }
}

/// What `insert_branch` computes, stated on a laid-out node.
proof fn lemma_branch_insert_equation(v0: Seq<u32>, h: int, i: int, mid: u32, init: Seq<u32>)
    requires
        layout_ok(v0, h),
        0 <= i <= mids_of(v0, h).len(),
        v0.len() + 2 + init.len() <= u32::MAX,
    ensures
        ({
            let head = head_of(v0, h);
            let m = mids_of(v0, h);
            let s = segs_of(v0, h);
            let n = m.len() as int;
            let l = h + n + 1;
            let ins = v0[h + n + i];
            let v1 = v0.insert(i + h, mid).update(h - 1, l as u32).insert(l + i, ins);
            let v2 = insert_run(v1, ins + 2, init);
            let v3 = bumped(bumped(v2, l, l + i + 1, 2), l + i + 1, l + n + 1, 2 + init.len() as int);
            &&& layout_fits(head, m.insert(i, mid), s.insert(i, init))
            &&& v3.update(l + n + 1, (v0.len() + 2 + init.len()) as u32) == layout(
                head,
                m.insert(i, mid),
                s.insert(i, init),
            )
        }),
{
    let head = head_of(v0, h);
    let m = mids_of(v0, h);
    let s = segs_of(v0, h);
    let n = m.len() as int;
    let base = layout_base(h, n);
    assert(v0[h + n + i] == base + offset(s, i) && layout_fits(head, m, s) && head.len() + 1
        == h) by {
        lemma_layout_numbers(v0, h);
        lemma_offset_le_total(s, i);
    }
    lemma_branch_insert_on(v0, head, m, s, i, mid, init);
}

/// Inserts a new branch with key `mid` and segment `init` at index `i`,
/// moving the starts and segments and updating the branch count and total.
pub fn insert_branch(v: &mut Vec<u32>, h: usize, i: usize, mid: u32, init: &Vec<u32>)
    requires
        layout_ok(old(v)@, h as int),
        i <= mids_of(old(v)@, h as int).len(),
        old(v)@.len() + 2 + init@.len() <= u32::MAX,
    ensures
        final(v)@ == layout(
            head_of(old(v)@, h as int),
            mids_of(old(v)@, h as int).insert(i as int, mid),
            segs_of(old(v)@, h as int).insert(i as int, init@),
        ),
        layout_fits(
            head_of(old(v)@, h as int),
            mids_of(old(v)@, h as int).insert(i as int, mid),
            segs_of(old(v)@, h as int).insert(i as int, init@),
        ),
        final(v)@.len() == old(v)@.len() + 2 + init@.len(),
{
    let ghost v0 = v@;
    proof {
        lemma_branch_insert_bounds(v0, h as int, i as int, init@.len() as int);
        lemma_branch_insert_equation(v0, h as int, i as int, mid, init@);
    }
    v.insert(i + h, mid);
    v[h - 1] = v[h - 1] + 1;
    let l = v[h - 1] as usize;
    let i_index = l + i;
    let ins = v[i_index];
    v.insert(i_index, ins);
    let ghost v1 = v@;
    let p = ins as usize + 2;
    let mut k: usize = 0;
    while k < init.len()
        invariant
            0 <= k <= init@.len(),
            p <= v1.len(),
            v@ == insert_run(v1, p as int, init@.take(k as int)),
            v@.len() == v1.len() + k,
        decreases init@.len() - k,
    {
        assert(p + k <= v.len());
        v.insert(p + k, init[k]);
        k += 1;
        proof {
            assert(v@ =~= insert_run(v1, p as int, init@.take(k as int)));
        }
    }
    proof {
        assert(init@.take(init@.len() as int) =~= init@);
    }
    let ghost v2 = v@;
    let end = l + (l - h);
    let extra = init.len() as u32;
    proof {
        assert forall|j: int| l <= j < end implies v2[j] + 2 + extra <= u32::MAX by {
            assert(v2[j] == v1[j]);
        }
    }
    add_to_range(v, l, i_index + 1, 2);
    add_to_range(v, i_index + 1, end, 2 + extra);
    let total = v.len() as u32;
    v[end] = total;
}

/// Overwriting an entry of a segment keeps every offset.
proof fn lemma_segment_set_layout(head: Seq<u32>, m: Seq<u32>, s: Seq<Seq<u32>>, i: int, at: int, x: u32)
    requires
        layout_fits(head, m, s),
        0 <= i < m.len(),
        0 <= at < s[i].len(),
    ensures
        ({
            let pos = layout_base((head.len() + 1) as int, m.len() as int) + offset(s, i) + at;
            &&& layout_fits(head, m, s.update(i, s[i].update(at, x)))
            &&& layout(head, m, s).update(pos, x) == layout(head, m, s.update(i, s[i].update(at, x)))
        }),
{
    reveal(layout);
    let h = (head.len() + 1) as int;
    let n = m.len() as int;
    let base = layout_base(h, n);
    let y = s[i].update(at, x);
    let s2 = s.update(i, y);
    lemma_flat_at(s, i);
    lemma_flat_update(s, i, y);
    lemma_offset_all(s);
    lemma_offset_all(s2);
    let f = flat(s);
    assert(flat(s2) =~= f.update(offset(s, i) + at, x));
    let target = layout(head, m, s2);
    let fin = layout(head, m, s).update(base + offset(s, i) + at, x);
    assert forall|k: int| 0 <= k < target.len() implies #[trigger] fin[k] == target[k] by {
        if h + n <= k < h + n + n {
            let j = k - h - n;
            if j <= i {
                assert(offset(s2, j) == offset(s, j));
            } else {
                assert(offset(s2, j) == offset(s, j));
            }
        }
    }
    assert(fin =~= target);
}

/// Overwrites entry `at` of the segment of branch `i`.
pub fn set_in_segment(v: &mut Vec<u32>, h: usize, i: usize, at: usize, x: u32)
    requires
        layout_ok(old(v)@, h as int),
        i < mids_of(old(v)@, h as int).len(),
        at < segs_of(old(v)@, h as int)[i as int].len(),
    ensures
        final(v)@ == layout(
            head_of(old(v)@, h as int),
            mids_of(old(v)@, h as int),
            segs_of(old(v)@, h as int).update(
                i as int,
                segs_of(old(v)@, h as int)[i as int].update(at as int, x),
            ),
        ),
        layout_fits(
            head_of(old(v)@, h as int),
            mids_of(old(v)@, h as int),
            segs_of(old(v)@, h as int).update(
                i as int,
                segs_of(old(v)@, h as int)[i as int].update(at as int, x),
            ),
        ),
        final(v)@.len() == old(v)@.len(),
{
    let ghost v0 = v@;
    let ghost hh = h as int;
    let ghost head = head_of(v0, hh);
    let ghost m = mids_of(v0, hh);
    let ghost s = segs_of(v0, hh);
    let ghost n = m.len() as int;
    proof {
        lemma_layout_numbers(v0, hh);
        lemma_flat_at(s, i as int);
        lemma_offset_le_total(s, i as int + 1);
        assert(v0[hh + n + i] == layout_base(hh, n) + offset(s, i as int));
        lemma_segment_set_layout(head, m, s, i as int, at as int, x);
    }
    let l = v[h - 1] as usize;
    let pos = v[l + i] as usize + at;
    v[pos] = x;
}

/// Overwriting an entry of the head.
pub proof fn lemma_head_set_layout(head: Seq<u32>, m: Seq<u32>, s: Seq<Seq<u32>>, k: int, x: u32)
    requires
        0 <= k < head.len(),
    ensures
        layout(head, m, s).update(k, x) == layout(head.update(k, x), m, s),
{
    reveal(layout);
    assert(layout(head, m, s).update(k, x) =~= layout(head.update(k, x), m, s));
}

/// Inserting at a placement keeps a strictly increasing sequence increasing.
pub proof fn lemma_ascending_insert(s: Seq<u32>, i: int, x: u32)
    requires
        ascending(s),
        0 <= i <= s.len(),
        forall|j: int| 0 <= j < i ==> s[j] < x,
        forall|j: int| i <= j < s.len() ==> s[j] > x,
    ensures
        ascending(s.insert(i, x)),
{
    let t = s.insert(i, x);
    assert forall|a: int, b: int| 0 <= a < b < t.len() implies t[a] < t[b] by {
        if a < i && b < i {
        } else if a < i && b == i {
        } else if a < i {
            assert(t[b] == s[b - 1]);
        } else if a == i {
            assert(t[b] == s[b - 1]);
        } else {
            assert(t[a] == s[a - 1]);
            assert(t[b] == s[b - 1]);
        }
    }
}

pub proof fn lemma_to_set_insert(s: Seq<u32>, i: int, x: u32)
    requires
        0 <= i <= s.len(),
    ensures
        s.insert(i, x).to_set() =~= s.to_set().insert(x),
{
    let t = s.insert(i, x);
    assert forall|y: u32| t.contains(y) <==> (s.contains(y) || y == x) by {
        if s.contains(y) {
            let j = choose|j: int| 0 <= j < s.len() && s[j] == y;
            if j < i {
                assert(t[j] == y);
            } else {
                assert(t[j + 1] == y);
            }
        }
        if y == x {
            assert(t[i] == x);
        }
        if t.contains(y) && y != x {
            let j = choose|j: int| 0 <= j < t.len() && t[j] == y;
            if j < i {
                assert(s[j] == y);
            } else {
                assert(s[j - 1] == y);
            }
        }
    }
}

/// The segment of branch `i` of a laid-out node is the slice between its start
/// and the next start, and those lie within the node.
pub proof fn lemma_segment_bounds(v: Seq<u32>, h: int, i: int)
    requires
        layout_ok(v, h),
        0 <= i < mids_of(v, h).len(),
    ensures
        ({
            let n = mids_of(v, h).len() as int;
            let lo = v[h + n + i] as int;
            let hi = v[h + n + i + 1] as int;
            &&& v[h - 1] == h + n
            &&& h + 2 * n < lo <= hi <= v.len()
            &&& segs_of(v, h)[i] == v.subrange(lo, hi)
        }),
{
    let s = segs_of(v, h);
    let n = mids_of(v, h).len() as int;
    lemma_layout_numbers(v, h);
    lemma_flat_at(s, i);
    lemma_offset_le_total(s, i + 1);
    assert(v[h + n + i] == layout_base(h, n) + offset(s, i));
    assert(v[h + n + i + 1] == layout_base(h, n) + offset(s, i + 1));
}

/// Two strictly increasing sequences with the same elements are equal.
pub proof fn lemma_ascending_unique(s1: Seq<u32>, s2: Seq<u32>)
    requires
        ascending(s1),
        ascending(s2),
        forall|x: u32| s1.contains(x) <==> s2.contains(x),
    ensures
        s1 == s2,
    decreases s1.len() + s2.len(),
{
    if s1.len() == 0 {
        if s2.len() > 0 {
            assert(s2.contains(s2[0]));
        }
        assert(s1 =~= s2);
    } else if s2.len() == 0 {
        assert(s1.contains(s1[0]));
    } else {
        let a = s1.last();
        let b = s2.last();
        assert(s1.contains(a));
        assert(s2.contains(b));
        let ia = choose|k: int| 0 <= k < s2.len() && s2[k] == a;
        let ib = choose|k: int| 0 <= k < s1.len() && s1[k] == b;
        if ia < s2.len() - 1 {
            assert(s2[ia] < s2[s2.len() - 1]);
        }
        if ib < s1.len() - 1 {
            assert(s1[ib] < s1[s1.len() - 1]);
        }
        assert(a == b);
        let t1 = s1.drop_last();
        let t2 = s2.drop_last();
        assert forall|x: u32| t1.contains(x) <==> t2.contains(x) by {
            if t1.contains(x) {
                let k = choose|k: int| 0 <= k < t1.len() && t1[k] == x;
                assert(s1[k] < a);
                assert(s1.contains(x));
                let k2 = choose|k2: int| 0 <= k2 < s2.len() && s2[k2] == x;
                assert(k2 != s2.len() - 1);
                assert(t2[k2] == x);
            }
            if t2.contains(x) {
                let k = choose|k: int| 0 <= k < t2.len() && t2[k] == x;
                assert(s2[k] < b);
                assert(s2.contains(x));
                let k1 = choose|k1: int| 0 <= k1 < s1.len() && s1[k1] == x;
                assert(k1 != s1.len() - 1);
                assert(t1[k1] == x);
            }
        }
        lemma_ascending_unique(t1, t2);
        assert(s1 =~= t1.push(a));
        assert(s2 =~= t2.push(b));
    }
}

/// A laid-out node is determined by its head, branch keys and segments.
pub proof fn lemma_layout_determined(v1: Seq<u32>, v2: Seq<u32>, h: int)
    requires
        layout_ok(v1, h),
        layout_ok(v2, h),
        head_of(v1, h) == head_of(v2, h),
        mids_of(v1, h) == mids_of(v2, h),
        segs_of(v1, h) == segs_of(v2, h),
    ensures
        v1 == v2,
{
}

/// `v` with `c` added to the entries at indices `lo..hi`.
pub open spec fn bumped(v: Seq<u32>, lo: int, hi: int, c: int) -> Seq<u32> {
    Seq::new(v.len(), |k: int| if lo <= k < hi { (v[k] + c) as u32 } else { v[k] })
}

/// Adds `c` to every entry at indices `lo..hi`.
pub fn add_to_range(v: &mut Vec<u32>, lo: usize, hi: usize, c: u32)
    requires
        lo <= hi <= old(v)@.len(),
        forall|k: int| lo <= k < hi ==> old(v)@[k] + c <= u32::MAX,
    ensures
        final(v)@ == bumped(old(v)@, lo as int, hi as int, c as int),
{
    let mut k = lo;
    while k < hi
        invariant
            lo <= k <= hi <= v@.len(),
            v@.len() == old(v)@.len(),
            forall|j: int| lo <= j < hi ==> old(v)@[j] + c <= u32::MAX,
            v@ =~= bumped(old(v)@, lo as int, k as int, c as int),
        decreases hi - k,
    {
        v[k] = v[k] + c;
        k += 1;
        assert(v@ =~= bumped(old(v)@, lo as int, k as int, c as int));
    }
}

/// Binary search for `x` among the strictly increasing entries `v[lo..hi]`:
/// `Ok(i)` when `v[lo + i] == x`, else `Err(i)` with `i` the number of
/// entries below `x`.
pub fn search_range(v: &Vec<u32>, lo: usize, hi: usize, x: u32) -> (res: Result<usize, usize>)
    requires
        lo <= hi <= v@.len(),
        ascending(v@.subrange(lo as int, hi as int)),
    ensures
        match res {
            Ok(i) => i < hi - lo && v@[lo + i] == x,
            Err(i) => i <= hi - lo && (forall|j: int| lo <= j < lo + i ==> v@[j] < x) && (forall|
                j: int,
            |
                lo + i <= j < hi ==> v@[j] > x),
        },
{
    let ghost s = v@.subrange(lo as int, hi as int);
    let mut left: usize = lo;
    let mut right: usize = hi;
    while left < right
        invariant
            lo <= left <= right <= hi <= v@.len(),
            s == v@.subrange(lo as int, hi as int),
            ascending(s),
            forall|j: int| lo <= j < left ==> v@[j] < x,
            forall|j: int| right <= j < hi ==> v@[j] > x,
        decreases right - left,
    {
        let mid = left + (right - left) / 2;
        let y = v[mid];
        if y == x {
            return Ok(mid - lo);
        } else if y < x {
            proof {
                assert forall|j: int| lo <= j < mid + 1 implies v@[j] < x by {
                    if j < mid {
                        assert(s[j - lo] < s[mid - lo]);
                    }
                }
            }
            left = mid + 1;
        } else {
            proof {
                assert forall|j: int| mid <= j < hi implies v@[j] > x by {
                    if j > mid {
                        assert(s[mid - lo] < s[j - lo]);
                    }
                }
            }
            right = mid;
        }
    }
    Err(left - lo)
}

} // verus!

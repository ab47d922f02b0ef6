use vstd::prelude::*;

verus! {

/// A sorted list of document ids stored as a first value plus the gaps
/// between neighbours. Gaps that do not fit the chosen column width are
/// stored as absolute values ("patches") instead.
pub struct GapVec {
    pub first: u64,
    pub len: u64,
    pub gaps: Column,
    /// Absolute document ids of the values whose gap does not fit the column.
    pub patches: Vec<u64>,
    /// `patch_positions[0]` is 0; `patch_positions[k + 1]` is the number of
    /// gaps stored before the `k`-th patch.
    pub patch_positions: Vec<u64>,
}

/// The column of small gaps, in one of three widths.
pub enum Column {
    Uint8(Vec<u8>),
    Uint16(Vec<u16>),
    Uint32(Vec<u32>),
}

/// The width chosen for the gap column.
pub enum Threshold {
    Uint8,
    Uint16,
    Uint32,
}

/// An unsigned integer type that a gap column can hold.
pub trait GapWidth: Sized + Copy {
    spec fn as_int(&self) -> int;

    spec fn max_gap() -> int;

    proof fn lemma_bounds(x: Self)
        ensures
            0 <= x.as_int() <= Self::max_gap(),
    ;

    fn widen(&self) -> (r: u64)
        ensures
            r == self.as_int(),
    ;

    fn max_value() -> (r: u64)
        ensures
            r == Self::max_gap(),
    ;

    fn narrow(x: u64) -> (r: Self)
        requires
            x <= Self::max_gap(),
        ensures
            r.as_int() == x,
    ;
}

impl GapWidth for u8 {
    open spec fn as_int(&self) -> int {
        *self as int
    }

    open spec fn max_gap() -> int {
        0xff
    }

    proof fn lemma_bounds(x: Self) {
    }

    fn widen(&self) -> (r: u64) {
        *self as u64
    }

    fn max_value() -> (r: u64) {
        0xff
    }

    fn narrow(x: u64) -> (r: Self) {
        x as u8
    }
}

impl GapWidth for u16 {
    open spec fn as_int(&self) -> int {
        *self as int
    }

    open spec fn max_gap() -> int {
        0xffff
    }

    proof fn lemma_bounds(x: Self) {
    }

    fn widen(&self) -> (r: u64) {
        *self as u64
    }

    fn max_value() -> (r: u64) {
        0xffff
    }

    fn narrow(x: u64) -> (r: Self) {
        x as u16
    }
}

impl GapWidth for u32 {
    open spec fn as_int(&self) -> int {
        *self as int
    }

    open spec fn max_gap() -> int {
        0xffff_ffff
    }

    proof fn lemma_bounds(x: Self) {
    }

    fn widen(&self) -> (r: u64) {
        *self as u64
    }

    fn max_value() -> (r: u64) {
        0xffff_ffff
    }

    fn narrow(x: u64) -> (r: Self) {
        x as u32
    }
}

/// The values of a column as integers.
pub open spec fn widened<T: GapWidth>(s: Seq<T>) -> Seq<int> {
    s.map_values(|x: T| x.as_int())
}

impl Column {
    /// The gaps held by the column.
    pub open spec fn values(&self) -> Seq<int> {
        match self {
            Column::Uint8(v) => widened(v@),
            Column::Uint16(v) => widened(v@),
            Column::Uint32(v) => widened(v@),
        }
    }

    /// The width of the column.
    pub open spec fn width(&self) -> Threshold {
        match self {
            Column::Uint8(_) => Threshold::Uint8,
            Column::Uint16(_) => Threshold::Uint16,
            Column::Uint32(_) => Threshold::Uint32,
        }
    }
}

impl Threshold {
    /// The largest gap that a column of this width holds.
    pub open spec fn max_gap(&self) -> int {
        match self {
            Threshold::Uint8 => 0xff,
            Threshold::Uint16 => 0xffff,
            Threshold::Uint32 => 0xffff_ffff,
        }
    }
}

/// `s` never decreases.
pub open spec fn non_decreasing(s: Seq<u64>) -> bool {
    forall|i: int, j: int| 0 <= i <= j < s.len() ==> s[i] <= s[j]
}

/// The running sums `start + steps[0]`, `start + steps[0] + steps[1]`, ...
pub open spec fn partial_sums(start: int, steps: Seq<int>) -> Seq<int>
    decreases steps.len(),
{
    if steps.len() == 0 {
        seq![]
    } else {
        let r = partial_sums(start, steps.drop_last());
        r.push(end_value(start, r) + steps.last())
    }
}

/// The last value of a run that started at `start`.
pub open spec fn end_value(start: int, run: Seq<int>) -> int {
    if run.len() == 0 {
        start
    } else {
        run.last()
    }
}

/// The gaps from index `lo` up to `hi` (none when `hi <= lo`).
pub open spec fn segment(gaps: Seq<int>, lo: int, hi: int) -> Seq<int> {
    if lo < hi {
        gaps.subrange(lo, hi)
    } else {
        seq![]
    }
}

/// The values decoded after the first `k` patches, and the last of them.
pub open spec fn decode_arms(
    first: u64,
    gaps: Seq<int>,
    patches: Seq<u64>,
    positions: Seq<u64>,
    k: nat,
) -> (Seq<int>, int)
    decreases k,
{
    if k == 0 {
        (seq![first as int], first as int)
    } else {
        let (out, item) = decode_arms(first, gaps, patches, positions, (k - 1) as nat);
        let run = partial_sums(item, segment(gaps, positions[k - 1] as int, positions[k as int] as int));
        (out + run + seq![patches[k - 1] as int], patches[k - 1] as int)
    }
}

/// The list that a gap representation stands for.
pub open spec fn decode(first: u64, gaps: Seq<int>, patches: Seq<u64>, positions: Seq<u64>) -> Seq<
    int,
> {
    let (out, item) = decode_arms(first, gaps, patches, positions, (positions.len() - 1) as nat);
    out + partial_sums(item, segment(gaps, positions.last() as int, gaps.len() as int))
}

/// The gap representation of `list` where gaps above `t` become patches:
/// (gaps, patches, patch positions).
pub open spec fn encode(list: Seq<u64>, t: int) -> (Seq<int>, Seq<u64>, Seq<u64>)
    decreases list.len(),
{
    if list.len() <= 1 {
        (seq![], seq![], seq![0u64])
    } else {
        let (g, p, pp) = encode(list.drop_last(), t);
        let d = list.last() - list[list.len() - 2];
        if d > t {
            (g, p.push(list.last()), pp.push(g.len() as u64))
        } else {
            (g.push(d), p, pp)
        }
    }
}

/// A gap representation that `into_list` decodes without going out of
/// bounds or overflowing.
pub open spec fn decodable(gaps: Seq<int>, patches: Seq<u64>, positions: Seq<u64>, first: u64) -> bool {
    &&& positions.len() >= 1
    &&& patches.len() + 1 >= positions.len()
    &&& forall|k: int|
        1 <= k < positions.len() && positions[k - 1] < positions[k] ==> #[trigger] positions[k]
            <= gaps.len()
    &&& forall|i: int|
        0 <= i < decode(first, gaps, patches, positions).len() ==> #[trigger] decode(
            first,
            gaps,
            patches,
            positions,
        )[i] <= u64::MAX
}

impl GapVec {
    /// The list this representation stands for.
    pub open spec fn decoded(&self) -> Seq<int> {
        decode(self.first, self.gaps.values(), self.patches@, self.patch_positions@)
    }

    pub open spec fn is_decodable(&self) -> bool {
        decodable(self.gaps.values(), self.patches@, self.patch_positions@, self.first)
    }

    /// `self` is the representation of `list` with gaps of its column's width.
    pub open spec fn encodes(&self, list: Seq<u64>) -> bool {
        let (g, p, pp) = encode(list, self.gaps.width().max_gap());
        &&& list.len() >= 1
        &&& self.first == list[0]
        &&& self.len == list.len()
        &&& self.gaps.values() == g
        &&& self.patches@ == p
        &&& self.patch_positions@ == pp
    }

    /// Decodes the list.
    pub fn into_list(self) -> (res: Vec<u64>)
        requires
            self.is_decodable(),
        ensures
            res@.map_values(|x: u64| x as int) == self.decoded(),
    {
        match self.gaps {
            Column::Uint8(gaps) => decode_column(self.first, &gaps, &self.patches, &self.patch_positions),
            Column::Uint16(gaps) => decode_column(self.first, &gaps, &self.patches, &self.patch_positions),
            Column::Uint32(gaps) => decode_column(self.first, &gaps, &self.patches, &self.patch_positions),
        }
    }
}

proof fn lemma_partial_sums_push(start: int, s: Seq<int>, x: int)
    ensures
        partial_sums(start, s.push(x)) == partial_sums(start, s).push(
            end_value(start, partial_sums(start, s)) + x,
        ),
{
    assert(s.push(x).drop_last() =~= s);
}

proof fn lemma_partial_sums_len(start: int, s: Seq<int>)
    ensures
        partial_sums(start, s).len() == s.len(),
    decreases s.len(),
{
    if s.len() > 0 {
        lemma_partial_sums_len(start, s.drop_last());
    }
}

/// Running sums over a prefix of the steps are a prefix of the running sums.
proof fn lemma_partial_sums_prefix(start: int, s: Seq<int>, j: int)
    requires
        0 <= j <= s.len(),
    ensures
        partial_sums(start, s.take(j)) =~= partial_sums(start, s).take(j),
    decreases s.len(),
{
    lemma_partial_sums_len(start, s);
    lemma_partial_sums_len(start, s.take(j));
    if j < s.len() {
        lemma_partial_sums_prefix(start, s.drop_last(), j);
        assert(s.drop_last().take(j) =~= s.take(j));
    } else {
        assert(s.take(j) =~= s);
    }
}

proof fn lemma_decode_arms_shape(
    first: u64,
    gaps: Seq<int>,
    patches: Seq<u64>,
    positions: Seq<u64>,
    k: nat,
)
    ensures
        decode_arms(first, gaps, patches, positions, k).0.len() >= 1,
        decode_arms(first, gaps, patches, positions, k).1 == decode_arms(
            first,
            gaps,
            patches,
            positions,
            k,
        ).0.last(),
    decreases k,
{
    if k > 0 {
        lemma_decode_arms_shape(first, gaps, patches, positions, (k - 1) as nat);
    }
}

/// The values decoded after `k1` patches are a prefix of those after `k2`.
proof fn lemma_decode_arms_prefix(
    first: u64,
    gaps: Seq<int>,
    patches: Seq<u64>,
    positions: Seq<u64>,
    k1: nat,
    k2: nat,
)
    requires
        k1 <= k2,
    ensures
        decode_arms(first, gaps, patches, positions, k2).0.len() >= decode_arms(
            first,
            gaps,
            patches,
            positions,
            k1,
        ).0.len(),
        decode_arms(first, gaps, patches, positions, k1).0 =~= decode_arms(
            first,
            gaps,
            patches,
            positions,
            k2,
        ).0.take(decode_arms(first, gaps, patches, positions, k1).0.len() as int),
    decreases k2,
{
    if k1 < k2 {
        lemma_decode_arms_prefix(first, gaps, patches, positions, k1, (k2 - 1) as nat);
    }
}

/// The shape of an encoding: one more position than patches, positions
/// start at 0, never decrease and never pass the gaps, every element but
/// the first is either a gap or a patch, and on a sorted list every gap
/// lies within `0..=t`.
pub proof fn lemma_encode_shape(list: Seq<u64>, t: int)
    requires
        1 <= list.len() <= u64::MAX,
    ensures
        ({
            let (g, p, pp) = encode(list, t);
            &&& pp.len() == p.len() + 1
            &&& pp[0] == 0
            &&& forall|i: int, j: int| 0 <= i <= j < pp.len() ==> pp[i] <= pp[j]
            &&& forall|i: int| 0 <= i < pp.len() ==> pp[i] <= g.len()
            &&& g.len() + p.len() + 1 == list.len()
            &&& non_decreasing(list) ==> forall|i: int| 0 <= i < g.len() ==> 0 <= #[trigger] g[i] <= t
        }),
    decreases list.len(),
{
    if list.len() > 1 {
        let l = list.drop_last();
        lemma_encode_shape(l, t);
        let (g0, p0, pp0) = encode(l, t);
        let (g, p, pp) = encode(list, t);
        let d = list.last() - list[list.len() - 2];
        if d > t {
            assert(pp == pp0.push(g0.len() as u64));
            assert forall|i: int, j: int| 0 <= i <= j < pp.len() implies pp[i] <= pp[j] by {
                if j == pp.len() - 1 {
                    assert(pp[i] <= g0.len());
                }
            }
        } else {
            assert(g == g0.push(d));
            if non_decreasing(list) {
                assert(non_decreasing(l));
                assert(list[list.len() - 2] <= list.last());
                assert forall|i: int| 0 <= i < g.len() implies 0 <= #[trigger] g[i] <= t by {
                    if i < g0.len() {
                        assert(g[i] == g0[i]);
                    }
                }
            }
        }
    }
}

proof fn lemma_decode_arms_more_gaps(
    first: u64,
    g: Seq<int>,
    p: Seq<u64>,
    pp: Seq<u64>,
    d: int,
    k: nat,
)
    requires
        k < pp.len(),
        forall|j: int| 0 <= j <= k ==> pp[j] <= g.len(),
    ensures
        decode_arms(first, g.push(d), p, pp, k) == decode_arms(first, g, p, pp, k),
    decreases k,
{
    if k > 0 {
        lemma_decode_arms_more_gaps(first, g, p, pp, d, (k - 1) as nat);
        let lo = pp[k - 1] as int;
        let hi = pp[k as int] as int;
        if lo < hi {
            assert(g.push(d).subrange(lo, hi) =~= g.subrange(lo, hi));
        }
        assert(segment(g.push(d), lo, hi) =~= segment(g, lo, hi));
    }
}

proof fn lemma_decode_arms_more_patches(
    first: u64,
    g: Seq<int>,
    p: Seq<u64>,
    pp: Seq<u64>,
    x: u64,
    y: u64,
    k: nat,
)
    requires
        k < pp.len(),
        p.len() + 1 >= pp.len(),
    ensures
        decode_arms(first, g, p.push(x), pp.push(y), k) == decode_arms(first, g, p, pp, k),
    decreases k,
{
    if k > 0 {
        lemma_decode_arms_more_patches(first, g, p, pp, x, y, (k - 1) as nat);
    }
}

/// Decoding the encoding of a sorted list gives the list back.
pub proof fn lemma_decode_encode(list: Seq<u64>, t: int)
    requires
        1 <= list.len() <= u64::MAX,
        non_decreasing(list),
        t >= 0,
    ensures
        ({
            let (g, p, pp) = encode(list, t);
            decode(list[0], g, p, pp) == list.map_values(|x: u64| x as int)
        }),
    decreases list.len(),
{
    let (g, p, pp) = encode(list, t);
    if list.len() == 1 {
        assert(segment(g, 0, 0) =~= Seq::<int>::empty());
        assert(decode(list[0], g, p, pp) =~= list.map_values(|x: u64| x as int));
    } else {
        let l = list.drop_last();
        assert(non_decreasing(l));
        lemma_decode_encode(l, t);
        lemma_encode_shape(l, t);
        let (g0, p0, pp0) = encode(l, t);
        assert(l[0] == list[0]);
        let first = list[0];
        let k = (pp0.len() - 1) as nat;
        let (o, it) = decode_arms(first, g0, p0, pp0, k);
        lemma_decode_arms_shape(first, g0, p0, pp0, k);
        let seg0 = segment(g0, pp0.last() as int, g0.len() as int);
        let old_dec = o + partial_sums(it, seg0);
        assert(old_dec =~= l.map_values(|x: u64| x as int));
        let d = list.last() - list[list.len() - 2];
        if d > t {
            lemma_decode_arms_more_patches(first, g0, p0, pp0, list.last(), g0.len() as u64, k);
            assert(p == p0.push(list.last()));
            assert(pp == pp0.push(g0.len() as u64));
            assert(g == g0);
            assert(pp[k as int] == pp0.last());
            assert(pp[(k + 1) as int] == g0.len());
            assert(p[k as int] == list.last());
            let arms1 = decode_arms(first, g, p, pp, (k + 1) as nat);
            assert(decode_arms(first, g, p, pp, k) == (o, it));
            assert(arms1.0 == o + partial_sums(it, seg0) + seq![list.last() as int]);
            assert(segment(g0, g0.len() as int, g0.len() as int) =~= Seq::<int>::empty());
            assert(decode(first, g, p, pp) =~= old_dec + seq![list.last() as int]);
            assert(list.map_values(|x: u64| x as int) =~= l.map_values(|x: u64| x as int) + seq![
                list.last() as int,
            ]);
        } else {
            lemma_decode_arms_more_gaps(first, g0, p0, pp0, d, k);
            let lo = pp0.last() as int;
            assert(segment(g0.push(d), lo, (g0.len() + 1) as int) =~= seg0.push(d));
            lemma_partial_sums_push(it, seg0, d);
            let ps0 = partial_sums(it, seg0);
            lemma_partial_sums_len(it, seg0);
            assert(end_value(it, ps0) == old_dec.last());
            assert(old_dec.last() == list[list.len() - 2]);
            assert(decode(first, g, p, pp) =~= old_dec.push(list.last() as int));
            assert(list.map_values(|x: u64| x as int) =~= l.map_values(|x: u64| x as int).push(
                list.last() as int,
            ));
        }
    }
}

/// Round trip: the representation of a sorted list is decodable and decodes
/// to the list.
pub proof fn lemma_gap_vec_round_trip(gv: GapVec, list: Seq<u64>)
    requires
        gv.encodes(list),
        non_decreasing(list),
    ensures
        gv.is_decodable(),
        gv.decoded() == list.map_values(|x: u64| x as int),
{
    let t = gv.gaps.width().max_gap();
    lemma_decode_encode(list, t);
    lemma_encode_shape(list, t);
    let dec = gv.decoded();
    assert forall|i: int| 0 <= i < dec.len() implies #[trigger] dec[i] <= u64::MAX by {
        assert(dec[i] == list[i] as int);
    }
}

/// The gaps between neighbours of `list`.
pub open spec fn deltas(list: Seq<u64>) -> Seq<u64> {
    Seq::new((list.len() - 1) as nat, |i: int| (list[i + 1] - list[i]) as u64)
}

/// The number of entries of `s` below `x`.
pub open spec fn count_lt(s: Seq<u64>, x: int) -> nat
    decreases s.len(),
{
    if s.len() == 0 {
        0
    } else {
        count_lt(s.drop_last(), x) + if s.last() < x {
            1nat
        } else {
            0nat
        }
    }
}

/// The number of patches and the estimated size in bits of a column of
/// `size`-bit gaps over `n` gaps of which `patches` do not fit; every patch
/// costs two 64-bit words.
pub open spec fn estimated_bits(n: int, patches: int, size: int) -> int {
    (n - patches) * size + patches * 128
}

/// The width with the smallest estimate; on a tie the wider column wins.
pub open spec fn pick_width(bits8: int, bits16: int, bits32: int) -> Threshold {
    let (w, m) = if bits16 <= bits8 {
        (Threshold::Uint16, bits16)
    } else {
        (Threshold::Uint8, bits8)
    };
    if bits32 <= m {
        Threshold::Uint32
    } else {
        w
    }
}

/// A patch count that a binary search for the threshold `t` over the sorted
/// gaps `d` may report: every gap above `t` is counted; when `t` occurs among
/// the gaps, the gap found equal to `t` is counted too, with those after it,
/// and which of several equal gaps is found is left open.
pub open spec fn patch_count_ok(d: Seq<u64>, t: int, p: int) -> bool {
    &&& d.len() - count_lt(d, t + 1) <= p <= d.len() - count_lt(d, t)
    &&& count_lt(d, t) < count_lt(d, t + 1) ==> d.len() - count_lt(d, t + 1) < p
}

/// `w` is the width chosen from the patch counts `p8`, `p16`, `p32`.
pub open spec fn width_from_counts(d: Seq<u64>, w: Threshold, p8: int, p16: int, p32: int) -> bool {
    &&& patch_count_ok(d, 0xff, p8)
    &&& patch_count_ok(d, 0xffff, p16)
    &&& patch_count_ok(d, 0xffff_ffff, p32)
    &&& w == pick_width(
        estimated_bits(d.len() as int, p8, 8),
        estimated_bits(d.len() as int, p16, 16),
        estimated_bits(d.len() as int, p32, 32),
    )
}

/// `w` is a width that `GapVec::new` may choose for the gaps `d`.
pub open spec fn width_admissible(d: Seq<u64>, w: Threshold) -> bool {
    exists|p8: int, p16: int, p32: int| #[trigger] width_from_counts(d, w, p8, p16, p32)
}

/// The estimated size in bits of the column of width `w`, for `n` gaps of
/// which `p8`, `p16` or `p32` are patches at 8, 16 or 32 bits.
pub open spec fn bits_of_width(n: int, w: Threshold, p8: int, p16: int, p32: int) -> int {
    match w {
        Threshold::Uint8 => estimated_bits(n, p8, 8),
        Threshold::Uint16 => estimated_bits(n, p16, 16),
        Threshold::Uint32 => estimated_bits(n, p32, 32),
    }
}

/// The chosen width is the cheapest: for the patch counts the width was
/// chosen from, its estimated size is at most that of each of the three
/// widths (`GapVec::new` chooses its width from such counts).
pub proof fn lemma_chosen_width_cheapest(d: Seq<u64>, w: Threshold, p8: int, p16: int, p32: int)
    requires
        width_from_counts(d, w, p8, p16, p32),
    ensures
        bits_of_width(d.len() as int, w, p8, p16, p32) <= estimated_bits(d.len() as int, p8, 8),
        bits_of_width(d.len() as int, w, p8, p16, p32) <= estimated_bits(d.len() as int, p16, 16),
        bits_of_width(d.len() as int, w, p8, p16, p32) <= estimated_bits(d.len() as int, p32, 32),
{
}

/// The width chosen for gaps none of which equals a column's largest value:
/// a gap is a patch exactly when it exceeds the column's largest value.
pub open spec fn exact_width(d: Seq<u64>) -> Threshold {
    let n = d.len() as int;
    pick_width(
        estimated_bits(n, n - count_lt(d, 0x100), 8),
        estimated_bits(n, n - count_lt(d, 0x1_0000), 16),
        estimated_bits(n, n - count_lt(d, 0x1_0000_0000), 32),
    )
}

proof fn lemma_count_lt_le_len(s: Seq<u64>, x: int)
    ensures
        count_lt(s, x) <= s.len(),
    decreases s.len(),
{
    if s.len() > 0 {
        lemma_count_lt_le_len(s.drop_last(), x);
    }
}

proof fn lemma_count_lt_mono(s: Seq<u64>, x: int, y: int)
    requires
        x <= y,
    ensures
        count_lt(s, x) <= count_lt(s, y),
    decreases s.len(),
{
    if s.len() > 0 {
        lemma_count_lt_mono(s.drop_last(), x, y);
    }
}

/// Entries from `i` on are at least `x`: at most `i` entries are below `x`.
proof fn lemma_count_lt_upper(s: Seq<u64>, x: int, i: int)
    requires
        0 <= i <= s.len(),
        forall|j: int| i <= j < s.len() ==> s[j] >= x,
    ensures
        count_lt(s, x) <= i,
    decreases s.len(),
{
    if s.len() > i {
        lemma_count_lt_upper(s.drop_last(), x, i);
    } else {
        lemma_count_lt_le_len(s, x);
    }
}

/// Entries before `i` are below `x`: at least `i` entries are below `x`.
proof fn lemma_count_lt_lower(s: Seq<u64>, x: int, i: int)
    requires
        0 <= i <= s.len(),
        forall|j: int| 0 <= j < i ==> s[j] < x,
    ensures
        count_lt(s, x) >= i,
    decreases s.len(),
{
    if s.len() > i {
        lemma_count_lt_lower(s.drop_last(), x, i);
    } else if i > 0 {
        lemma_count_lt_lower(s.drop_last(), x, i - 1);
    }
}

/// No entry equals `x`: as many entries are below `x` as below `x + 1`.
proof fn lemma_count_lt_no_eq(s: Seq<u64>, x: int)
    requires
        forall|j: int| 0 <= j < s.len() ==> s[j] != x,
    ensures
        count_lt(s, x) == count_lt(s, x + 1),
    decreases s.len(),
{
    if s.len() > 0 {
        lemma_count_lt_no_eq(s.drop_last(), x);
    }
}

proof fn lemma_count_lt_remove(s: Seq<u64>, x: int, j: int)
    requires
        0 <= j < s.len(),
    ensures
        count_lt(s, x) == count_lt(s.remove(j), x) + if s[j] < x {
            1nat
        } else {
            0nat
        },
    decreases s.len(),
{
    if j == s.len() - 1 {
        assert(s.remove(j) =~= s.drop_last());
    } else {
        lemma_count_lt_remove(s.drop_last(), x, j);
        assert(s.remove(j).drop_last() =~= s.drop_last().remove(j));
        assert(s.remove(j).last() == s.last());
    }
}

/// Counting does not depend on the order of the entries.
proof fn lemma_count_lt_permutation(s1: Seq<u64>, s2: Seq<u64>, x: int)
    requires
        s1.to_multiset() == s2.to_multiset(),
    ensures
        count_lt(s1, x) == count_lt(s2, x),
    decreases s1.len(),
{
    broadcast use vstd::seq_lib::group_to_multiset_ensures;

    if s1.len() == 0 {
        assert(s2.to_multiset().len() == 0);
        assert(s2.len() == 0);
    } else {
        let a = s1.last();
        let r1 = s1.drop_last();
        assert(s1 =~= r1.push(a));
        assert(s1.to_multiset() =~= r1.to_multiset().insert(a));
        assert(s2.to_multiset().count(a) > 0);
        assert(s2.contains(a));
        let j = choose|j: int| 0 <= j < s2.len() && s2[j] == a;
        let r2 = s2.remove(j);
        assert(r2.to_multiset() =~= s2.to_multiset().remove(a));
        assert(r1.to_multiset() =~= r2.to_multiset());
        lemma_count_lt_permutation(r1, r2, x);
        lemma_count_lt_remove(s2, x, j);
    }
}

/// `<[u64]>::binary_search` of the standard library. On a sorted slice,
/// `Ok(i)` gives an index holding `x` (any one of several equal entries) and
/// `Err(i)` gives the index where `x` could be inserted keeping the order.
/// On a slice that is not sorted nothing is claimed.
#[verifier::external_body]
fn binary_search_u64(list: &[u64], x: u64) -> (res: Result<usize, usize>)
    ensures
        non_decreasing(list@) ==> match res {
            Ok(i) => i < list@.len() && list@[i as int] == x,
            Err(i) => i <= list@.len() && (forall|j: int| 0 <= j < i ==> list@[j] < x) && (
            forall|j: int| i <= j < list@.len() ==> list@[j] > x),
        },
{
    list.binary_search(&x)
}

/// `<[u64]>::sort_unstable` of the standard library: the slice ends sorted
/// ascending and holds the same values as before.
#[verifier::external_body]
fn sort_unstable_u64(v: &mut Vec<u64>)
    ensures
        non_decreasing(final(v)@),
        final(v)@.to_multiset() == old(v)@.to_multiset(),
{
    v.sort_unstable();
}

/// Estimates a gap column of `size`-bit gaps that turns every gap above
/// `threshold` into a patch, over the sorted gaps `list`: returns
/// (number of patches, size in bits). The patch count comes from a binary
/// search for `threshold`, so gaps equal to `threshold` may be counted.
pub fn estimate_bits(threshold: u64, size: u64, list: &[u64]) -> (res: (u64, u64))
    requires
        non_decreasing(list@),
        list@.len() * 128 <= u64::MAX,
        size <= 128,
    ensures
        patch_count_ok(list@, threshold as int, res.0 as int),
        res.1 == estimated_bits(list@.len() as int, res.0 as int, size as int),
{
    let index = match binary_search_u64(list, threshold) {
        Ok(i) => i,
        Err(e) => e,
    };
    proof {
        let s = list@;
        let t = threshold as int;
        lemma_count_lt_mono(s, t, t + 1);
        if index < s.len() && s[index as int] == threshold {
            lemma_count_lt_upper(s, t, index as int);
            assert forall|j: int| 0 <= j < index + 1 implies s[j] < t + 1 by {
                assert(s[j] <= s[index as int]);
            }
            lemma_count_lt_lower(s, t + 1, index + 1);
        } else {
            lemma_count_lt_upper(s, t, index as int);
            lemma_count_lt_upper(s, t + 1, index as int);
            lemma_count_lt_lower(s, t, index as int);
            lemma_count_lt_lower(s, t + 1, index as int);
        }
        let n = s.len() as int;
        let k = index as int;
        let z = size as int;
        assert(k * z <= k * 128) by (nonlinear_arith)
            requires
                z <= 128,
                0 <= k,
                0 <= z,
        ;
        assert((n - k) * 128 + k * 128 == n * 128) by (nonlinear_arith);
        assert(n * 128 <= u64::MAX);
    }
    let mut len: u64 = index as u64 * size;
    let patch_len = list.len() as u64 - index as u64;
    len += patch_len * 128;
    (patch_len, len)
}

/// Splits `list` into gaps that fit the column type `T` and patches.
fn compress<T: GapWidth>(
    list: &Vec<u64>,
    gaps_cap: usize,
    patches: &mut Vec<u64>,
    patch_positions: &mut Vec<u64>,
) -> (gaps: Vec<T>)
    requires
        list@.len() >= 1,
        non_decreasing(list@),
        old(patches)@ == Seq::<u64>::empty(),
        old(patch_positions)@ == seq![0u64],
    ensures
        (widened(gaps@), final(patches)@, final(patch_positions)@) == encode(list@, T::max_gap()),
{
    let threshold = T::max_value();
    let len = list.len();
    let mut gap_list: Vec<T> = Vec::with_capacity(gaps_cap);
    let mut patches_skipped: u64 = 1;
    let mut i: usize = 1;
    proof {
        assert(list@.take(1).len() == 1);
        assert(widened(gap_list@) =~= Seq::<int>::empty());
    }
    while i < len
        invariant
            len == list@.len(),
            1 <= i <= len,
            non_decreasing(list@),
            threshold == T::max_gap(),
            (widened(gap_list@), patches@, patch_positions@) == encode(list@.take(i as int), T::max_gap()),
            patches_skipped == patches@.len() + 1,
            gap_list@.len() + patches@.len() + 1 == i,
        decreases len - i,
    {
        let ghost prev = list@.take(i as int);
        proof {
            assert(list@.take(i + 1).drop_last() =~= prev);
            assert(list@.take(i + 1).last() == list@[i as int]);
            assert(list@.take(i + 1)[i - 1] == list@[i - 1]);
            assert(list@[i - 1] <= list@[i as int]);
        }
        let delta = list[i] - list[i - 1];
        if delta > threshold {
            patch_positions.push(i as u64 - patches_skipped);
            patches.push(list[i]);
            patches_skipped += 1;
        } else {
            let ghost before = gap_list@;
            gap_list.push(T::narrow(delta));
            proof {
                assert(widened(gap_list@) =~= widened(before).push(delta as int));
            }
        }
        i += 1;
    }
    proof {
        assert(list@.take(len as int) =~= list@);
    }
    gap_list
}

impl GapVec {
    /// Encodes a sorted list of document ids (at least one id).
    ///
    /// The column width is the one whose estimated size is smallest (a tie
    /// goes to the wider column), counting every gap that does not fit as a
    /// patch of two 64-bit words.
    pub fn new(list: Vec<u64>) -> (res: Self)
        requires
            list@.len() >= 1,
            non_decreasing(list@),
            list@.len() * 128 <= u64::MAX,
        ensures
            res.encodes(list@),
            width_admissible(deltas(list@), res.gaps.width()),
            (forall|j: int|
                0 <= j < deltas(list@).len() ==> #[trigger] deltas(list@)[j] != 0xff
                    && deltas(list@)[j] != 0xffff && deltas(list@)[j] != 0xffff_ffff)
                ==> res.gaps.width() == exact_width(deltas(list@)),
    {
        let first = list[0];
        let len = list.len();
        let mut deltas_vec: Vec<u64> = Vec::new();
        let mut i: usize = 1;
        while i < len
            invariant
                len == list@.len(),
                1 <= i <= len,
                non_decreasing(list@),
                deltas_vec@ =~= deltas(list@.take(i as int)),
            decreases len - i,
        {
            proof {
                assert(list@[i - 1] <= list@[i as int]);
            }
            deltas_vec.push(list[i] - list[i - 1]);
            i += 1;
            proof {
                assert(deltas_vec@ =~= deltas(list@.take(i as int)));
            }
        }
        proof {
            assert(list@.take(len as int) =~= list@);
        }
        let ghost d = deltas(list@);
        let ghost unsorted = deltas_vec@;
        sort_unstable_u64(&mut deltas_vec);
        proof {
            broadcast use vstd::seq_lib::group_to_multiset_ensures;
            assert(deltas_vec@.len() == deltas_vec@.to_multiset().len());
            assert(unsorted.len() == unsorted.to_multiset().len());
            assert(deltas_vec@.len() == d.len());
        }

        let u8_max: u64 = 0xff;
        let u16_max: u64 = 0xffff;
        let u32_max: u64 = 0xffff_ffff;

        let est8 = estimate_bits(u8_max, 8, deltas_vec.as_slice());
        let mut min_pair: (Threshold, (u64, u64)) = (Threshold::Uint8, est8);
        let est16 = estimate_bits(u16_max, 16, deltas_vec.as_slice());
        if est16.1 <= (min_pair.1).1 {
            min_pair = (Threshold::Uint16, est16);
        }
        let est32 = estimate_bits(u32_max, 32, deltas_vec.as_slice());
        if est32.1 <= (min_pair.1).1 {
            min_pair = (Threshold::Uint32, est32);
        }
        proof {
            let s = deltas_vec@;
            lemma_count_lt_permutation(s, d, 0xff);
            lemma_count_lt_permutation(s, d, 0x100);
            lemma_count_lt_permutation(s, d, 0xffff);
            lemma_count_lt_permutation(s, d, 0x1_0000);
            lemma_count_lt_permutation(s, d, 0xffff_ffff);
            lemma_count_lt_permutation(s, d, 0x1_0000_0000);
            assert(width_from_counts(d, min_pair.0, est8.0 as int, est16.0 as int, est32.0 as int));
            if forall|j: int|
                0 <= j < d.len() ==> #[trigger] d[j] != 0xff && d[j] != 0xffff && d[j]
                    != 0xffff_ffff {
                lemma_count_lt_no_eq(d, 0xff);
                lemma_count_lt_no_eq(d, 0xffff);
                lemma_count_lt_no_eq(d, 0xffff_ffff);
            }
        }
        let patch_count = (min_pair.1).0 as usize;
        let mut patches: Vec<u64> = Vec::with_capacity(patch_count);
        let mut patch_positions: Vec<u64> = Vec::with_capacity(patch_count + 1);
        patch_positions.push(0);
        let gaps_cap = len - patch_count;
        let gaps = match min_pair.0 {
            Threshold::Uint8 => Column::Uint8(
                compress::<u8>(&list, gaps_cap, &mut patches, &mut patch_positions),
            ),
            Threshold::Uint16 => Column::Uint16(
                compress::<u16>(&list, gaps_cap, &mut patches, &mut patch_positions),
            ),
            Threshold::Uint32 => Column::Uint32(
                compress::<u32>(&list, gaps_cap, &mut patches, &mut patch_positions),
            ),
        };
        GapVec { first, len: len as u64, gaps, patches, patch_positions }
    }
}

/// Decodes a gap column of any width.
fn decode_column<T: GapWidth>(first: u64, gaps: &Vec<T>, patches: &Vec<u64>, positions: &Vec<u64>) -> (res:
    Vec<u64>)
    requires
        decodable(widened(gaps@), patches@, positions@, first),
    ensures
        res@.map_values(|x: u64| x as int) == decode(first, widened(gaps@), patches@, positions@),
{
    let ghost g = widened(gaps@);
    let ghost full = decode(first, g, patches@, positions@);
    let ghost n_arms = (positions@.len() - 1) as nat;
    proof {
        lemma_decode_arms_prefix(first, g, patches@, positions@, 0, n_arms);
        lemma_decode_arms_shape(first, g, patches@, positions@, n_arms);
    }
    let mut list: Vec<u64> = Vec::new();
    let mut item = first;
    list.push(item);
    proof {
        let arms0 = decode_arms(first, g, patches@, positions@, 0);
        assert(list@.map_values(|x: u64| x as int) =~= arms0.0);
        assert(full.take(1) =~= arms0.0);
    }
    let mut arm: usize = 1;
    while arm < positions.len()
        invariant
            decodable(g, patches@, positions@, first),
            g == widened(gaps@),
            full == decode(first, g, patches@, positions@),
            n_arms == positions@.len() - 1,
            1 <= arm <= positions@.len(),
            list@.map_values(|x: u64| x as int) == decode_arms(
                first,
                g,
                patches@,
                positions@,
                (arm - 1) as nat,
            ).0,
            item == decode_arms(first, g, patches@, positions@, (arm - 1) as nat).1,
            full.take(list@.len() as int) == list@.map_values(|x: u64| x as int),
            list@.len() <= full.len(),
        decreases positions@.len() - arm,
    {
        let prev = arm - 1;
        let lo = positions[prev];
        let hi = positions[arm];
        let ghost base = list@.map_values(|x: u64| x as int);
        let ghost it = item as int;
        let ghost seg = segment(g, lo as int, hi as int);
        proof {
            lemma_decode_arms_prefix(first, g, patches@, positions@, arm as nat, n_arms);
            lemma_partial_sums_len(it, seg);
        }
        let mut b = lo;
        while b < hi
            invariant
                decodable(g, patches@, positions@, first),
                g == widened(gaps@),
                full == decode(first, g, patches@, positions@),
                n_arms == positions@.len() - 1,
                1 <= arm < positions@.len(),
                prev == arm - 1,
                lo == positions@[prev as int],
                hi == positions@[arm as int],
                lo <= b,
                b <= hi || b == lo,
                lo < hi ==> hi <= gaps@.len(),
                base == decode_arms(first, g, patches@, positions@, prev as nat).0,
                it == decode_arms(first, g, patches@, positions@, prev as nat).1,
                seg == segment(g, lo as int, hi as int),
                list@.map_values(|x: u64| x as int) == base + partial_sums(
                    it,
                    seg.take(b - lo),
                ),
                item == end_value(it, partial_sums(it, seg.take(b - lo))),
                decode_arms(first, g, patches@, positions@, arm as nat).0 =~= base
                    + partial_sums(it, seg) + seq![patches@[prev as int] as int],
                full.take(decode_arms(first, g, patches@, positions@, arm as nat).0.len() as int)
                    =~= decode_arms(first, g, patches@, positions@, arm as nat).0,
                decode_arms(first, g, patches@, positions@, arm as nat).0.len() <= full.len(),
                partial_sums(it, seg).len() == seg.len(),
            decreases hi - b,
        {
            let ghost j = b - lo;
            let ghost before = list@.map_values(|x: u64| x as int);
            proof {
                assert(seg.take(j + 1) =~= seg.take(j).push(seg[j]));
                lemma_partial_sums_push(it, seg.take(j), seg[j]);
                lemma_partial_sums_prefix(it, seg, j + 1);
                lemma_partial_sums_len(it, seg.take(j));
                let ps1 = partial_sums(it, seg.take(j + 1));
                assert(ps1[j] == item + seg[j]);
                assert(ps1[j] == partial_sums(it, seg)[j]);
                let arms = decode_arms(first, g, patches@, positions@, arm as nat).0;
                let idx = base.len() + j;
                assert(arms[idx] == partial_sums(it, seg)[j]);
                assert(full[idx] == arms[idx]);
                assert(full[idx] <= u64::MAX);
                assert(seg[j] == g[b as int]);
                assert(g[b as int] == gaps@[b as int].as_int());
            }
            assert(b < gaps@.len());
            assert(b < gaps.len());
            let bi = b as usize;
            assert(bi == b);
            let gap = gaps[bi].widen();
            item = item + gap;
            list.push(item);
            b = b + 1;
            proof {
                assert(list@.map_values(|x: u64| x as int) =~= before.push(item as int));
                assert(list@.map_values(|x: u64| x as int) =~= base + partial_sums(it, seg.take(b - lo)));
            }
        }
        proof {
            if lo < hi {
                assert(seg.take(b - lo) =~= seg);
            } else {
                assert(seg.take(b - lo) =~= seg);
            }
        }
        let patch = patches[prev];
        list.push(patch);
        item = patch;
        arm = arm + 1;
        proof {
            assert(list@.map_values(|x: u64| x as int) =~= decode_arms(
                first,
                g,
                patches@,
                positions@,
                (arm - 1) as nat,
            ).0);
        }
    }
    let start = positions[positions.len() - 1];
    let ghost base = list@.map_values(|x: u64| x as int);
    let ghost it = item as int;
    let ghost seg = segment(g, start as int, gaps@.len() as int);
    proof {
        lemma_partial_sums_len(it, seg);
        assert(arm == positions@.len());
        assert(full =~= base + partial_sums(it, seg));
    }
    let glen = gaps.len() as u64;
    let mut i = start;
    while i < glen
        invariant
            g == widened(gaps@),
            glen == gaps@.len(),
            start <= i,
            i <= glen || i == start,
            seg == segment(g, start as int, gaps@.len() as int),
            full =~= base + partial_sums(it, seg),
            full == decode(first, g, patches@, positions@),
            decodable(g, patches@, positions@, first),
            partial_sums(it, seg).len() == seg.len(),
            list@.map_values(|x: u64| x as int) == base + partial_sums(it, seg.take(i - start)),
            item == end_value(it, partial_sums(it, seg.take(i - start))),
        decreases glen - i,
    {
        let ghost j = i - start;
        let ghost before = list@.map_values(|x: u64| x as int);
        proof {
            assert(seg.take(j + 1) =~= seg.take(j).push(seg[j]));
            lemma_partial_sums_push(it, seg.take(j), seg[j]);
            lemma_partial_sums_prefix(it, seg, j + 1);
            lemma_partial_sums_len(it, seg.take(j));
            let ps1 = partial_sums(it, seg.take(j + 1));
            assert(ps1[j] == item + seg[j]);
            assert(ps1[j] == partial_sums(it, seg)[j]);
            let idx = base.len() + j;
            assert(full[idx] == partial_sums(it, seg)[j]);
            assert(full[idx] <= u64::MAX);
            assert(seg[j] == g[i as int]);
            assert(g[i as int] == gaps@[i as int].as_int());
        }
        assert(i < gaps@.len());
        assert(i < gaps.len());
        let ii = i as usize;
        assert(ii == i);
        let gap = gaps[ii].widen();
        item = item + gap;
        list.push(item);
        i = i + 1;
        proof {
            assert(list@.map_values(|x: u64| x as int) =~= before.push(item as int));
            assert(list@.map_values(|x: u64| x as int) =~= base + partial_sums(it, seg.take(i - start)));
        }
    }
    proof {
        assert(seg.take(i - start) =~= seg);
    }
    list
}

} // verus!

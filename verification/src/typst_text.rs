use vstd::prelude::*;

use crate::morph::Alignable;
use crate::utils::{resize_preserving_order, src_index};
use crate::text::{push_char, push_str, string_of};
use vstd::string::*;
use diff_match_patch_rs::{DiffMatchPatch, Efficient, Ops};

verus! {

/// What a run of a text diff does.
#[derive(Clone, Copy, Debug, PartialEq, Eq)]
pub enum DiffOp {
    /// The run is in both texts.
    Equal,
    /// The run is only in the old text.
    Delete,
    /// The run is only in the new text.
    Insert,
}

/// One run of a text diff: what it does and how many bytes it covers.
#[derive(Clone, Copy, Debug, PartialEq, Eq)]
pub struct DiffChunk {
    pub op: DiffOp,
    pub size: usize,
}

/// How many bytes of the old text the runs `d` cover.
pub open spec fn old_span(d: Seq<DiffChunk>) -> nat
    decreases d.len(),
{
    if d.len() == 0 {
        0
    } else {
        old_span(d.drop_last()) + if d.last().op == DiffOp::Insert {
            0nat
        } else {
            d.last().size as nat
        }
    }
}

/// How many bytes of the new text the runs `d` cover.
pub open spec fn new_span(d: Seq<DiffChunk>) -> nat
    decreases d.len(),
{
    if d.len() == 0 {
        0
    } else {
        new_span(d.drop_last()) + if d.last().op == DiffOp::Delete {
            0nat
        } else {
            d.last().size as nat
        }
    }
}

/// Whether the runs `d` cover an old text of `old_len` bytes and a new text
/// of `new_len` bytes exactly.
pub open spec fn diff_fits(d: Seq<DiffChunk>, old_len: nat, new_len: nat) -> bool {
    old_span(d) == old_len && new_span(d) == new_len
}

proof fn lemma_spans_monotone(d: Seq<DiffChunk>, k: int)
    requires
        0 <= k <= d.len(),
    ensures
        old_span(d.take(k)) <= old_span(d),
        new_span(d.take(k)) <= new_span(d),
    decreases d.len() - k,
{
    if k < d.len() {
        lemma_spans_monotone(d, k + 1);
        assert(d.take(k + 1).drop_last() =~= d.take(k));
    } else {
        assert(d.take(k) =~= d);
    }
}

proof fn lemma_spans_step(d: Seq<DiffChunk>, k: int)
    requires
        0 <= k < d.len(),
    ensures
        old_span(d.take(k + 1)) == old_span(d.take(k)) + if d[k].op == DiffOp::Insert {
            0nat
        } else {
            d[k].size as nat
        },
        new_span(d.take(k + 1)) == new_span(d.take(k)) + if d[k].op == DiffOp::Delete {
            0nat
        } else {
            d[k].size as nat
        },
{
    assert(d.take(k + 1).drop_last() =~= d.take(k));
    assert(d.take(k + 1).last() == d[k]);
}

/// Check that the runs `d` cover texts of `old_len` and `new_len` bytes.
pub fn diff_fits_lengths(d: &Vec<DiffChunk>, old_len: usize, new_len: usize) -> (r: bool)
    ensures
        r == diff_fits(d@, old_len as nat, new_len as nat),
{
    let mut ia: usize = 0;
    let mut ib: usize = 0;
    let mut k: usize = 0;
    while k < d.len()
        invariant
            k <= d@.len(),
            ia == old_span(d@.take(k as int)),
            ib == new_span(d@.take(k as int)),
            ia <= old_len,
            ib <= new_len,
        decreases d@.len() - k,
    {
        proof {
            lemma_spans_step(d@, k as int);
            lemma_spans_monotone(d@, k as int + 1);
        }
        let c = d[k];
        match c.op {
            DiffOp::Equal => {
                if c.size > old_len - ia || c.size > new_len - ib {
                    proof { lemma_spans_monotone(d@, k as int + 1); }
                    return false;
                }
                ia = ia + c.size;
                ib = ib + c.size;
            },
            DiffOp::Delete => {
                if c.size > old_len - ia {
                    return false;
                }
                ia = ia + c.size;
            },
            DiffOp::Insert => {
                if c.size > new_len - ib {
                    return false;
                }
                ib = ib + c.size;
            },
        }
        k += 1;
    }
    assert(d@.take(d@.len() as int) =~= d@);
    ia == old_len && ib == new_len
}


/// A glyph of a text item: something that can be aligned with another
/// glyph and shrunk to a point.
pub trait Glyph: Alignable + Clone {
    /// The glyph shrunk to a point.
    spec fn shrunk(self) -> Self;

    /// Shrink the glyph, used for glyphs that appear or disappear.
    fn shrink(&mut self)
        ensures
            *final(self) == old(self).shrunk(),
    ;
}

/// Whether `y` is a shrunk clone of `x`.
pub open spec fn shrunk_clone_of<V: Glyph>(x: V, y: V) -> bool {
    exists|c: V| #[trigger] cloned::<V>(x, c) && y == c.shrunk()
}

/// Whether two glyph sequences are equally long and aligned pairwise.
pub open spec fn aligned_seq<V: Alignable>(a: Seq<V>, b: Seq<V>) -> bool {
    &&& a.len() == b.len()
    &&& forall|i: int| 0 <= i < a.len() ==> #[trigger] a[i].aligned_with(b[i])
}

/// Whether the pair `rx`, `ry` is what aligning the pair `x`, `y` gives: the
/// pair kept as it was where it was already aligned, else what aligning `x`
/// with `y` makes of them.
pub open spec fn aligned_pair_of<V: Alignable>(x: V, y: V, rx: V, ry: V) -> bool {
    if x.aligned_with(y) {
        rx == x && ry == y
    } else {
        x.aligns_to(y, rx, ry)
    }
}

/// Whether `c` holds a clone of each glyph of `s`, in order.
pub open spec fn clones_of<V: Clone>(s: Seq<V>, c: Seq<V>) -> bool {
    &&& c.len() == s.len()
    &&& forall|i: int| 0 <= i < s.len() ==> cloned::<V>(s[i], #[trigger] c[i])
}

/// Whether `x` is what position `i` of the run `run` brought to `n` glyphs
/// holds: the glyph itself when the run already has `n` glyphs, else a clone
/// of the glyph that resizing in order takes there.
pub open spec fn from_run<V: Clone>(run: Seq<V>, n: int, i: int, x: V) -> bool {
    if run.len() == n {
        x == run[i]
    } else {
        cloned::<V>(run[src_index(i, run.len() as int, n)], x)
    }
}

/// Whether `x` is the run `run` brought to `n` glyphs: each of its glyphs
/// is what that position holds.
pub open spec fn resized_run<V: Clone>(run: Seq<V>, n: int, x: Seq<V>) -> bool {
    &&& x.len() == n
    &&& forall|i: int| 0 <= i < n ==> #[trigger] from_run(run, n, i, x[i])
}

/// Whether `ra`, `rb` are the runs `ca`, `cb` brought to `n` glyphs each and
/// aligned pairwise, each pair that was already aligned being kept.
pub open spec fn run_alignment<V: Alignable + Clone>(
    ca: Seq<V>,
    cb: Seq<V>,
    n: int,
    ra: Seq<V>,
    rb: Seq<V>,
) -> bool {
    &&& ra.len() == n
    &&& aligned_seq(ra, rb)
    &&& exists|xa: Seq<V>, xb: Seq<V>|
        #![trigger resized_run(ca, n, xa), resized_run(cb, n, xb)]
        resized_run(ca, n, xa) && resized_run(cb, n, xb) && forall|i: int|
            0 <= i < n ==> #[trigger] aligned_pair_of(xa[i], xb[i], ra[i], rb[i])
}

/// The larger of two lengths.
pub open spec fn max_len(x: nat, y: nat) -> nat {
    if x >= y {
        x
    } else {
        y
    }
}

/// How many glyph pairs aligning along the runs `d` gives, where `pa` old
/// and `pb` new glyphs of a changed run are pending: each equal run gives
/// its glyphs, each changed run as many as its longer side.
pub open spec fn diff_out_len(d: Seq<DiffChunk>, pa: nat, pb: nat) -> nat
    decreases d.len(),
{
    if d.len() == 0 {
        max_len(pa, pb)
    } else {
        let c = d[0];
        match c.op {
            DiffOp::Equal => max_len(pa, pb) + (c.size as nat) + diff_out_len(d.drop_first(), 0, 0),
            DiffOp::Delete => diff_out_len(d.drop_first(), pa + (c.size as nat), pb),
            DiffOp::Insert => diff_out_len(d.drop_first(), pa, pb + (c.size as nat)),
        }
    }
}

/// The glyphs that equal runs pair, as triples of output position, old
/// index and new index, for the runs `d` read from old index `ia` and new
/// index `ib`, with `pa` and `pb` glyphs of a changed run pending and `off`
/// pairs already out.
pub open spec fn equal_pairs(
    d: Seq<DiffChunk>,
    ia: int,
    ib: int,
    pa: nat,
    pb: nat,
    off: int,
) -> Seq<(int, int, int)>
    decreases d.len(),
{
    if d.len() == 0 {
        Seq::empty()
    } else {
        let c = d[0];
        let l = c.size as int;
        match c.op {
            DiffOp::Equal => {
                let base = off + max_len(pa, pb);
                Seq::new(c.size as nat, |t: int| (base + t, ia + t, ib + t)) + equal_pairs(
                    d.drop_first(),
                    ia + l,
                    ib + l,
                    0,
                    0,
                    base + l,
                )
            },
            DiffOp::Delete => equal_pairs(d.drop_first(), ia + l, ib, pa + (c.size as nat), pb, off),
            DiffOp::Insert => equal_pairs(d.drop_first(), ia, ib + l, pa, pb + (c.size as nat), off),
        }
    }
}

/// Whether, for each triple `(k, i, j)` of `pairs`, position `k` of `xa`
/// and `xb` holds clones of `a[i]` and `b[j]`.
pub open spec fn pairs_cloned<V: Clone>(
    a: Seq<V>,
    b: Seq<V>,
    pairs: Seq<(int, int, int)>,
    xa: Seq<V>,
    xb: Seq<V>,
) -> bool {
    forall|q: int|
        #![trigger pairs[q]]
        0 <= q < pairs.len() ==> {
            let (k, i, j) = pairs[q];
            &&& 0 <= k < xa.len()
            &&& k < xb.len()
            &&& cloned::<V>(a[i], xa[k])
            &&& cloned::<V>(b[j], xb[k])
        }
}

/// Whether `ra`, `rb` are what aligning the two changed runs `sa` and `sb`
/// gives: clones of their glyphs brought to the longer run's length and
/// aligned pairwise.
pub open spec fn aligned_run_of<V: Alignable + Clone>(
    sa: Seq<V>,
    sb: Seq<V>,
    ra: Seq<V>,
    rb: Seq<V>,
) -> bool {
    exists|ca: Seq<V>, cb: Seq<V>|
        #![trigger clones_of(sa, ca), clones_of(sb, cb)]
        clones_of(sa, ca) && clones_of(sb, cb) && run_alignment(
            ca,
            cb,
            max_len(sa.len(), sb.len()) as int,
            ra,
            rb,
        )
}

/// The changed runs of the runs `d` read from old index `ia` and new index
/// `ib`, with `pa` and `pb` glyphs of a changed run pending and `off` pairs
/// already out: one before each equal run and one at the end, each as its
/// output position, its start and length among the old glyphs and its start
/// and length among the new glyphs.
pub open spec fn changed_runs(
    d: Seq<DiffChunk>,
    ia: int,
    ib: int,
    pa: nat,
    pb: nat,
    off: int,
) -> Seq<(int, int, int, int, int)>
    decreases d.len(),
{
    let here = (off, ia - pa, pa as int, ib - pb, pb as int);
    if d.len() == 0 {
        seq![here]
    } else {
        let c = d[0];
        let l = c.size as int;
        match c.op {
            DiffOp::Equal => seq![here] + changed_runs(
                d.drop_first(),
                ia + l,
                ib + l,
                0,
                0,
                off + max_len(pa, pb) + l,
            ),
            DiffOp::Delete => changed_runs(d.drop_first(), ia + l, ib, pa + (c.size as nat), pb, off),
            DiffOp::Insert => changed_runs(d.drop_first(), ia, ib + l, pa, pb + (c.size as nat), off),
        }
    }
}

/// Whether the outputs `xa`, `xb` hold the changed run `run` of the glyphs
/// `a` and `b` as it is before the final pairwise alignment: a run only in
/// `a` as clones of its glyphs facing shrunk clones of them, a run only in
/// `b` likewise the other way round, and a run in both as the two runs
/// aligned.
pub open spec fn changed_run_in<V: Glyph>(
    a: Seq<V>,
    b: Seq<V>,
    run: (int, int, int, int, int),
    xa: Seq<V>,
    xb: Seq<V>,
) -> bool {
    let (o, fa, la, fb, lb) = run;
    let n = max_len(la as nat, lb as nat) as int;
    &&& 0 <= o
    &&& o + n <= xa.len()
    &&& o + n <= xb.len()
    &&& la > 0 && lb == 0 ==> forall|t: int|
        0 <= t < la ==> cloned::<V>(a[fa + t], #[trigger] xa[o + t]) && shrunk_clone_of(
            a[fa + t],
            xb[o + t],
        )
    &&& la == 0 && lb > 0 ==> forall|t: int|
        0 <= t < lb ==> shrunk_clone_of(b[fb + t], #[trigger] xa[o + t]) && cloned::<V>(
            b[fb + t],
            xb[o + t],
        )
    &&& la > 0 && lb > 0 ==> aligned_run_of(
        a.subrange(fa, fa + la),
        b.subrange(fb, fb + lb),
        xa.subrange(o, o + n),
        xb.subrange(o, o + n),
    )
}

/// A changed run held by outputs stays held when the outputs grow.
proof fn lemma_changed_run_prefix<V: Glyph>(
    a: Seq<V>,
    b: Seq<V>,
    run: (int, int, int, int, int),
    xa: Seq<V>,
    xb: Seq<V>,
    ya: Seq<V>,
    yb: Seq<V>,
)
    requires
        changed_run_in(a, b, run, xa, xb),
        xa.len() <= ya.len(),
        xb.len() <= yb.len(),
        ya.subrange(0, xa.len() as int) == xa,
        yb.subrange(0, xb.len() as int) == xb,
    ensures
        changed_run_in(a, b, run, ya, yb),
{
    let (o, fa, la, fb, lb) = run;
    let n = max_len(la as nat, lb as nat) as int;
    assert forall|i: int| 0 <= i < xa.len() implies ya[i] == xa[i] by {
        assert(ya[i] == ya.subrange(0, xa.len() as int)[i]);
    }
    assert forall|i: int| 0 <= i < xb.len() implies yb[i] == xb[i] by {
        assert(yb[i] == yb.subrange(0, xb.len() as int)[i]);
    }
    assert(ya.subrange(o, o + n) =~= xa.subrange(o, o + n));
    assert(yb.subrange(o, o + n) =~= xb.subrange(o, o + n));
    if la > 0 && lb == 0 {
        assert forall|t: int| 0 <= t < la implies cloned::<V>(a[fa + t], #[trigger] ya[o + t])
            && shrunk_clone_of(a[fa + t], yb[o + t]) by {
            assert(ya[o + t] == xa[o + t]);
            assert(yb[o + t] == xb[o + t]);
        }
    }
    if la == 0 && lb > 0 {
        assert forall|t: int| 0 <= t < lb implies shrunk_clone_of(b[fb + t], #[trigger] ya[o + t])
            && cloned::<V>(b[fb + t], yb[o + t]) by {
            assert(ya[o + t] == xa[o + t]);
            assert(yb[o + t] == xb[o + t]);
        }
    }
}

/// Whether `ra`, `rb` are what aligning the glyphs `a` and `b` along the
/// runs `d` gives: one pair per glyph of an equal run and as many per
/// changed run as its longer side has, aligned pairwise. Before that final
/// alignment of the pairs, the glyphs of equal runs are clones of theirs, a
/// run that is in one text only faces shrunk clones of its glyphs, and a
/// run that changed in both texts is the two runs aligned.
pub open spec fn aligned_by_diff<V: Glyph>(
    a: Seq<V>,
    b: Seq<V>,
    d: Seq<DiffChunk>,
    ra: Seq<V>,
    rb: Seq<V>,
) -> bool {
    &&& ra.len() == diff_out_len(d, 0, 0)
    &&& aligned_seq(ra, rb)
    &&& exists|xa: Seq<V>, xb: Seq<V>|
        #![trigger pairs_cloned(a, b, equal_pairs(d, 0, 0, 0, 0, 0), xa, xb)]
        {
            &&& xa.len() == ra.len()
            &&& xb.len() == ra.len()
            &&& pairs_cloned(a, b, equal_pairs(d, 0, 0, 0, 0, 0), xa, xb)
            &&& forall|q: int|
                0 <= q < changed_runs(d, 0, 0, 0, 0, 0).len() ==> #[trigger] changed_run_in(
                    a,
                    b,
                    changed_runs(d, 0, 0, 0, 0, 0)[q],
                    xa,
                    xb,
                )
            &&& forall|k: int|
                0 <= k < xa.len() ==> #[trigger] aligned_pair_of(xa[k], xb[k], ra[k], rb[k])
        }
}

/// The bytes of the old text that the run `c` covers.
pub open spec fn old_part(c: DiffChunk) -> nat {
    if c.op == DiffOp::Insert {
        0
    } else {
        c.size as nat
    }
}

/// The bytes of the new text that the run `c` covers.
pub open spec fn new_part(c: DiffChunk) -> nat {
    if c.op == DiffOp::Delete {
        0
    } else {
        c.size as nat
    }
}

proof fn lemma_spans_first(d: Seq<DiffChunk>)
    requires
        d.len() > 0,
    ensures
        old_span(d) == old_part(d[0]) + old_span(d.drop_first()),
        new_span(d) == new_part(d[0]) + new_span(d.drop_first()),
    decreases d.len(),
{
    if d.len() > 1 {
        lemma_spans_first(d.drop_last());
        assert(d.drop_last().drop_first() =~= d.drop_first().drop_last());
        assert(d.drop_first().last() == d.last());
    } else {
        assert(d.drop_first() =~= Seq::<DiffChunk>::empty());
        assert(d.drop_last() =~= Seq::<DiffChunk>::empty());
    }
}

/// Aligning along runs gives at least as many pairs as either side has
/// glyphs (pending ones included) and at most as many as both together.
proof fn lemma_diff_out_len_bounds(d: Seq<DiffChunk>, pa: nat, pb: nat)
    ensures
        diff_out_len(d, pa, pb) >= pa + old_span(d),
        diff_out_len(d, pa, pb) >= pb + new_span(d),
        diff_out_len(d, pa, pb) <= pa + pb + old_span(d) + new_span(d),
    decreases d.len(),
{
    if d.len() > 0 {
        lemma_spans_first(d);
        let c = d[0];
        match c.op {
            DiffOp::Equal => lemma_diff_out_len_bounds(d.drop_first(), 0, 0),
            DiffOp::Delete => lemma_diff_out_len_bounds(d.drop_first(), pa + (c.size as nat), pb),
            DiffOp::Insert => lemma_diff_out_len_bounds(d.drop_first(), pa, pb + (c.size as nat)),
        }
    }
}

/// The glyphs `v[from..to]`, cloned.
fn clone_range<V: Clone>(v: &Vec<V>, from: usize, to: usize) -> (r: Vec<V>)
    requires
        from <= to <= v@.len(),
    ensures
        r@.len() == to - from,
        forall|i: int| 0 <= i < to - from ==> cloned::<V>(v@[from + i], #[trigger] r@[i]),
{
    let mut r: Vec<V> = Vec::new();
    let mut i: usize = from;
    while i < to
        invariant
            from <= i <= to <= v@.len(),
            r@.len() == i - from,
            forall|k: int| 0 <= k < i - from ==> cloned::<V>(v@[from + k], #[trigger] r@[k]),
        decreases to - i,
    {
        r.push(v[i].clone());
        i += 1;
    }
    r
}

/// Shrunk clones of the glyphs `v[from..to]`.
fn shrunk_range<V: Glyph>(v: &Vec<V>, from: usize, to: usize) -> (r: Vec<V>)
    requires
        from <= to <= v@.len(),
    ensures
        r@.len() == to - from,
        forall|i: int| 0 <= i < to - from ==> shrunk_clone_of(v@[from + i], #[trigger] r@[i]),
{
    let mut r: Vec<V> = Vec::new();
    let mut i: usize = from;
    while i < to
        invariant
            from <= i <= to <= v@.len(),
            r@.len() == i - from,
            forall|k: int| 0 <= k < i - from ==> shrunk_clone_of(v@[from + k], #[trigger] r@[k]),
        decreases to - i,
    {
        let mut x = v[i].clone();
        let ghost c = x;
        x.shrink();
        assert(cloned::<V>(v@[i as int], c));
        r.push(x);
        i += 1;
    }
    r
}

/// Move all glyphs of `src` to the end of `dst`.
fn append_all<V>(dst: &mut Vec<V>, src: Vec<V>)
    ensures
        final(dst)@ == old(dst)@ + src@,
{
    let mut src = src;
    dst.append(&mut src);
}

/// Push the changed runs `a[from_a..to_a]` and `b[from_b..to_b]` onto the
/// outputs, made equally long: a run missing on one side is filled with
/// shrunk copies of the other side, two present runs are aligned.
fn push_changed_runs<V: Glyph>(
    out_a: &mut Vec<V>,
    out_b: &mut Vec<V>,
    a: &Vec<V>,
    b: &Vec<V>,
    from_a: usize,
    to_a: usize,
    from_b: usize,
    to_b: usize,
)
    requires
        from_a <= to_a <= a@.len(),
        from_b <= to_b <= b@.len(),
        old(out_a)@.len() == old(out_b)@.len(),
    ensures
        final(out_a)@.len() == old(out_a)@.len() + max_len(
            (to_a - from_a) as nat,
            (to_b - from_b) as nat,
        ),
        final(out_b)@.len() == final(out_a)@.len(),
        final(out_a)@.subrange(0, old(out_a)@.len() as int) == old(out_a)@,
        final(out_b)@.subrange(0, old(out_b)@.len() as int) == old(out_b)@,
        changed_run_in(
            a@,
            b@,
            (old(out_a)@.len() as int, from_a as int, to_a - from_a, from_b as int, to_b - from_b),
            final(out_a)@,
            final(out_b)@,
        ),
{
    if from_a != to_a || from_b != to_b {
        let mut run_a = clone_range(a, from_a, to_a);
        let mut run_b = clone_range(b, from_b, to_b);
        if run_a.len() == 0 {
            run_a = shrunk_range(b, from_b, to_b);
        }
        if run_b.len() == 0 {
            run_b = shrunk_range(a, from_a, to_a);
        }
        let ghost ca = run_a@;
        let ghost cb = run_b@;
        if from_a != to_a && from_b != to_b {
            let (x, y) = align_runs(run_a, run_b);
            run_a = x;
            run_b = y;
        }
        let ghost oa = out_a@;
        let ghost ob = out_b@;
        let ghost ra = run_a@;
        let ghost rb = run_b@;
        append_all(out_a, run_a);
        append_all(out_b, run_b);
        assert(out_a@.subrange(0, oa.len() as int) =~= oa);
        assert(out_b@.subrange(0, ob.len() as int) =~= ob);
        proof {
            let o = oa.len() as int;
            let n = max_len((to_a - from_a) as nat, (to_b - from_b) as nat) as int;
            assert(out_a@.subrange(o, o + n) =~= ra);
            assert(out_b@.subrange(o, o + n) =~= rb);
            if from_a < to_a && from_b < to_b {
                let sa = a@.subrange(from_a as int, to_a as int);
                let sb = b@.subrange(from_b as int, to_b as int);
                assert(clones_of(sa, ca));
                assert(clones_of(sb, cb));
                assert(aligned_run_of(sa, sb, ra, rb));
            }
            if from_a < to_a && from_b == to_b {
                assert forall|t: int| 0 <= t < to_a - from_a implies cloned::<V>(
                    a@[from_a + t],
                    #[trigger] out_a@[o + t],
                ) && shrunk_clone_of(a@[from_a + t], out_b@[o + t]) by {
                    assert(out_a@[o + t] == ra[t]);
                    assert(out_b@[o + t] == rb[t]);
                }
            }
            if from_a == to_a && from_b < to_b {
                assert forall|t: int| 0 <= t < to_b - from_b implies shrunk_clone_of(
                    b@[from_b + t],
                    #[trigger] out_a@[o + t],
                ) && cloned::<V>(b@[from_b + t], out_b@[o + t]) by {
                    assert(out_a@[o + t] == ra[t]);
                    assert(out_b@[o + t] == rb[t]);
                }
            }
        }
    } else {
        assert(out_a@.subrange(0, out_a@.len() as int) =~= out_a@);
        assert(out_b@.subrange(0, out_b@.len() as int) =~= out_b@);
    }
}

/// Align every pair of glyphs that is not aligned yet; pairs that are
/// aligned already are kept as they are.
fn align_pairwise<V: Glyph>(a: Vec<V>, b: Vec<V>) -> (r: (Vec<V>, Vec<V>))
    requires
        a@.len() == b@.len(),
    ensures
        r.0@.len() == a@.len(),
        aligned_seq(r.0@, r.1@),
        forall|i: int|
            0 <= i < a@.len() ==> aligned_pair_of(a@[i], b@[i], #[trigger] r.0@[i], r.1@[i]),
{
    let ghost a0 = a@;
    let ghost b0 = b@;
    let ghost n = a@.len() as int;
    let mut a = a;
    let mut b = b;
    let mut ra: Vec<V> = Vec::new();
    let mut rb: Vec<V> = Vec::new();
    while a.len() > 0
        invariant
            a@.len() == b@.len(),
            n == a0.len(),
            n == b0.len(),
            a@ == a0.take(a@.len() as int),
            b@ == b0.take(b@.len() as int),
            ra@.len() == n - a@.len(),
            aligned_seq(ra@, rb@),
            forall|m: int|
                0 <= m < ra@.len() ==> aligned_pair_of(
                    a0[n - 1 - m],
                    b0[n - 1 - m],
                    #[trigger] ra@[m],
                    rb@[m],
                ),
        decreases a@.len(),
    {
        let ghost la = a@.len() as int;
        let mut x = a.pop().unwrap();
        let mut y = b.pop().unwrap();
        proof {
            assert(x == a0[la - 1]);
            assert(y == b0[la - 1]);
            assert(a@ =~= a0.take(la - 1));
            assert(b@ =~= b0.take(la - 1));
        }
        let ghost x0 = x;
        let ghost y0 = y;
        if !x.is_aligned(&y) {
            x.align_with(&mut y);
        }
        assert(aligned_pair_of(x0, y0, x, y));
        ra.push(x);
        rb.push(y);
        proof {
            assert(ra@[ra@.len() - 1] == x);
        }
    }
    let ghost ra0 = ra@;
    let ghost rb0 = rb@;
    let mut oa: Vec<V> = Vec::new();
    let mut ob: Vec<V> = Vec::new();
    while ra.len() > 0
        invariant
            ra0.len() == n,
            rb0.len() == n,
            ra@ == ra0.take(ra@.len() as int),
            rb@ == rb0.take(rb@.len() as int),
            ra@.len() == rb@.len(),
            oa@.len() == n - ra@.len(),
            ob@.len() == oa@.len(),
            forall|m: int| 0 <= m < oa@.len() ==> #[trigger] oa@[m] == ra0[n - 1 - m],
            forall|m: int| 0 <= m < ob@.len() ==> #[trigger] ob@[m] == rb0[n - 1 - m],
        decreases ra@.len(),
    {
        let ghost lr = ra@.len() as int;
        let x = ra.pop().unwrap();
        let y = rb.pop().unwrap();
        proof {
            assert(x == ra0[lr - 1]);
            assert(y == rb0[lr - 1]);
            assert(ra@ =~= ra0.take(lr - 1));
            assert(rb@ =~= rb0.take(lr - 1));
        }
        oa.push(x);
        ob.push(y);
    }
    proof {
        assert forall|i: int| 0 <= i < oa@.len() implies #[trigger] oa@[i].aligned_with(ob@[i]) by {
            assert(oa@[i] == ra0[n - 1 - i]);
            assert(ob@[i] == rb0[n - 1 - i]);
            assert(ra0[n - 1 - i].aligned_with(rb0[n - 1 - i]));
        }
        assert forall|i: int| 0 <= i < n implies aligned_pair_of(
            a0[i],
            b0[i],
            #[trigger] oa@[i],
            ob@[i],
        ) by {
            let m = n - 1 - i;
            assert(oa@[i] == ra0[m]);
            assert(ob@[i] == rb0[m]);
            assert(aligned_pair_of(a0[n - 1 - m], b0[n - 1 - m], ra0[m], rb0[m]));
        }
    }
    (oa, ob)
}

/// Align two non-empty runs of glyphs: the shorter one is resized to the
/// length of the longer one, preserving its order, then the glyphs are
/// aligned pairwise.
fn align_runs<V: Glyph>(a: Vec<V>, b: Vec<V>) -> (r: (Vec<V>, Vec<V>))
    requires
        a@.len() > 0,
        b@.len() > 0,
    ensures
        run_alignment(a@, b@, max_len(a@.len(), b@.len()) as int, r.0@, r.1@),
{
    let ghost a0 = a@;
    let ghost b0 = b@;
    let len = if a.len() >= b.len() {
        a.len()
    } else {
        b.len()
    };
    let a = if a.len() != len {
        resize_preserving_order(a.as_slice(), len)
    } else {
        a
    };
    let b = if b.len() != len {
        resize_preserving_order(b.as_slice(), len)
    } else {
        b
    };
    proof {
        assert forall|i: int| 0 <= i < len implies #[trigger] from_run(a0, len as int, i, a@[i]) by {}
        assert forall|i: int| 0 <= i < len implies #[trigger] from_run(b0, len as int, i, b@[i]) by {}
        assert(resized_run(a0, len as int, a@));
        assert(resized_run(b0, len as int, b@));
    }
    let ghost xa = a@;
    let ghost xb = b@;
    let r = align_pairwise(a, b);
    proof {
        assert forall|i: int| 0 <= i < len implies #[trigger] aligned_pair_of(
            xa[i],
            xb[i],
            r.0@[i],
            r.1@[i],
        ) by {}
        assert(max_len(a0.len(), b0.len()) == len);
    }
    r
}

/// Align two glyph sequences along a diff of their texts: runs that are in
/// both texts are paired glyph by glyph, changed runs are made equally long,
/// then every pair of glyphs is aligned. The result has one pair per glyph
/// of an equal run and as many per changed run as its longer side has; the
/// glyphs of equal runs come out as clones of theirs, a run that is in one
/// text only faces shrunk clones of its glyphs, and each pair is kept as it
/// is where it was already aligned.
pub fn align_by_diff<V: Glyph>(a: &Vec<V>, b: &Vec<V>, diffs: &Vec<DiffChunk>) -> (r: (
    Vec<V>,
    Vec<V>,
))
    requires
        diff_fits(diffs@, a@.len(), b@.len()),
    ensures
        aligned_by_diff(a@, b@, diffs@, r.0@, r.1@),
        max_len(a@.len(), b@.len()) <= r.0@.len() <= a@.len() + b@.len(),
{
    let ghost e = equal_pairs(diffs@, 0, 0, 0, 0, 0);
    let ghost total = diff_out_len(diffs@, 0, 0);
    let ghost mut done: Seq<(int, int, int)> = Seq::empty();
    let ghost cr = changed_runs(diffs@, 0, 0, 0, 0, 0);
    let ghost mut done_cr: Seq<(int, int, int, int, int)> = Seq::empty();
    let mut out_a: Vec<V> = Vec::new();
    let mut out_b: Vec<V> = Vec::new();
    let mut ia: usize = 0;
    let mut ib: usize = 0;
    let mut last_a: usize = 0;
    let mut last_b: usize = 0;
    let mut k: usize = 0;
    proof {
        assert(diffs@.skip(0) =~= diffs@);
        assert(done + e =~= e);
        assert(done_cr + cr =~= cr);
    }
    while k < diffs.len()
        invariant
            k <= diffs@.len(),
            diff_fits(diffs@, a@.len(), b@.len()),
            ia == old_span(diffs@.take(k as int)),
            ib == new_span(diffs@.take(k as int)),
            last_a <= ia <= a@.len(),
            last_b <= ib <= b@.len(),
            out_a@.len() == out_b@.len(),
            e == equal_pairs(diffs@, 0, 0, 0, 0, 0),
            total == diff_out_len(diffs@, 0, 0),
            out_a@.len() + diff_out_len(
                diffs@.skip(k as int),
                (ia - last_a) as nat,
                (ib - last_b) as nat,
            ) == total,
            done + equal_pairs(
                diffs@.skip(k as int),
                ia as int,
                ib as int,
                (ia - last_a) as nat,
                (ib - last_b) as nat,
                out_a@.len() as int,
            ) == e,
            pairs_cloned(a@, b@, done, out_a@, out_b@),
            cr == changed_runs(diffs@, 0, 0, 0, 0, 0),
            done_cr + changed_runs(
                diffs@.skip(k as int),
                ia as int,
                ib as int,
                (ia - last_a) as nat,
                (ib - last_b) as nat,
                out_a@.len() as int,
            ) == cr,
            forall|q: int|
                0 <= q < done_cr.len() ==> #[trigger] changed_run_in(
                    a@,
                    b@,
                    done_cr[q],
                    out_a@,
                    out_b@,
                ),
        decreases diffs@.len() - k,
    {
        let ghost st = diffs@.skip(k as int);
        assert(st.len() > 0 && st[0] == diffs@[k as int]);
        assert(st.drop_first() =~= diffs@.skip(k as int + 1));
        proof {
            lemma_spans_step(diffs@, k as int);
            lemma_spans_monotone(diffs@, k as int + 1);
        }
        let c = diffs[k];
        let len_a = a.len();
        let len_b = b.len();
        assert(old_span(diffs@.take(k as int + 1)) <= len_a && new_span(diffs@.take(k as int + 1))
            <= len_b);
        match c.op {
            DiffOp::Equal => {
                let ghost out0 = out_a@;
                let ghost outb0 = out_b@;
                push_changed_runs(&mut out_a, &mut out_b, a, b, last_a, ia, last_b, ib);
                let ghost mid = out_a@;
                let ghost midb = out_b@;
                let l = c.size;
                let run_a = clone_range(a, ia, ia + l);
                let run_b = clone_range(b, ib, ib + l);
                let ghost ra = run_a@;
                let ghost rb = run_b@;
                append_all(&mut out_a, run_a);
                append_all(&mut out_b, run_b);
                proof {
                    let base = mid.len() as int;
                    let n = Seq::new(l as nat, |t: int| (base + t, ia + t, ib + t));
                    assert(pairs_cloned(a@, b@, done, out_a@, out_b@)) by {
                        assert forall|q: int| #![trigger done[q]] 0 <= q < done.len() implies {
                            let (kk, i, j) = done[q];
                            &&& 0 <= kk < out_a@.len()
                            &&& kk < out_b@.len()
                            &&& cloned::<V>(a@[i], out_a@[kk])
                            &&& cloned::<V>(b@[j], out_b@[kk])
                        } by {
                            let (kk, i, j) = done[q];
                            assert(out_a@[kk] == mid[kk] && mid[kk] == mid.subrange(0, out0.len() as int)[kk]);
                            assert(out_b@[kk] == midb[kk] && midb[kk] == midb.subrange(0, outb0.len() as int)[kk]);
                        }
                    }
                    let done2 = done + n;
                    assert forall|q: int| #![trigger done2[q]] 0 <= q < done2.len() implies {
                        let (kk, i, j) = done2[q];
                        &&& 0 <= kk < out_a@.len()
                        &&& kk < out_b@.len()
                        &&& cloned::<V>(a@[i], out_a@[kk])
                        &&& cloned::<V>(b@[j], out_b@[kk])
                    } by {
                        if q < done.len() {
                            assert(done2[q] == done[q]);
                        } else {
                            let t = q - done.len();
                            assert(done2[q] == n[t]);
                            assert(out_a@[base + t] == ra[t]);
                            assert(out_b@[base + t] == rb[t]);
                        }
                    }
                    let rest = equal_pairs(diffs@.skip(k as int + 1), ia + l, ib + l, 0, 0, base + l);
                    assert(done2 + rest =~= done + (n + rest));
                    done = done2;
                    let here = (
                        out0.len() as int,
                        last_a as int,
                        ia - last_a,
                        last_b as int,
                        ib - last_b,
                    );
                    assert(mid.subrange(0, out0.len() as int) == out0);
                    assert(out_a@.subrange(0, mid.len() as int) =~= mid);
                    assert(out_b@.subrange(0, midb.len() as int) =~= midb);
                    let done_cr2 = done_cr.push(here);
                    assert forall|q: int| 0 <= q < done_cr2.len() implies #[trigger] changed_run_in(
                        a@,
                        b@,
                        done_cr2[q],
                        out_a@,
                        out_b@,
                    ) by {
                        if q < done_cr.len() {
                            assert(done_cr2[q] == done_cr[q]);
                            lemma_changed_run_prefix(a@, b@, done_cr[q], out0, outb0, mid, midb);
                        }
                        lemma_changed_run_prefix(a@, b@, done_cr2[q], mid, midb, out_a@, out_b@);
                    }
                    let rest_cr = changed_runs(
                        diffs@.skip(k as int + 1),
                        ia + l,
                        ib + l,
                        0,
                        0,
                        out_a@.len() as int,
                    );
                    assert(done_cr2 + rest_cr =~= done_cr + (seq![here] + rest_cr));
                    done_cr = done_cr2;
                }
                ia = ia + l;
                ib = ib + l;
                last_a = ia;
                last_b = ib;
            },
            DiffOp::Delete => {
                ia = ia + c.size;
            },
            DiffOp::Insert => {
                ib = ib + c.size;
            },
        }
        k += 1;
    }
    let ghost out0 = out_a@;
    let ghost outb0 = out_b@;
    proof {
        assert(diffs@.skip(k as int) =~= Seq::<DiffChunk>::empty());
        assert(done =~= e);
    }
    push_changed_runs(&mut out_a, &mut out_b, a, b, last_a, ia, last_b, ib);
    proof {
        let here = (out0.len() as int, last_a as int, ia - last_a, last_b as int, ib - last_b);
        assert(done_cr.push(here) =~= cr);
        assert forall|q: int| 0 <= q < cr.len() implies #[trigger] changed_run_in(
            a@,
            b@,
            cr[q],
            out_a@,
            out_b@,
        ) by {
            if q < done_cr.len() {
                assert(cr[q] == done_cr[q]);
                lemma_changed_run_prefix(a@, b@, done_cr[q], out0, outb0, out_a@, out_b@);
            }
        }
    }
    proof {
        assert forall|q: int| #![trigger e[q]] 0 <= q < e.len() implies {
            let (kk, i, j) = e[q];
            &&& 0 <= kk < out_a@.len()
            &&& kk < out_b@.len()
            &&& cloned::<V>(a@[i], out_a@[kk])
            &&& cloned::<V>(b@[j], out_b@[kk])
        } by {
            let (kk, i, j) = e[q];
            assert(done[q] == e[q]);
            assert(out_a@[kk] == out_a@.subrange(0, out0.len() as int)[kk]);
            assert(out_b@[kk] == out_b@.subrange(0, outb0.len() as int)[kk]);
        }
    }
    let ghost xa = out_a@;
    let ghost xb = out_b@;
    let r = align_pairwise(out_a, out_b);
    proof {
        assert(pairs_cloned(a@, b@, e, xa, xb));
        assert forall|kk: int| 0 <= kk < xa.len() implies #[trigger] aligned_pair_of(
            xa[kk],
            xb[kk],
            r.0@[kk],
            r.1@[kk],
        ) by {}
        assert(aligned_by_diff(a@, b@, diffs@, r.0@, r.1@));
        lemma_diff_out_len_bounds(diffs@, 0, 0);
    }
    r
}


/// Whether `c` only lays text out: space, newline, carriage return or tab.
pub open spec fn is_layout_char(c: char) -> bool {
    c == ' ' || c == '\n' || c == '\r' || c == '\t'
}

/// The characters of `s` without the layout characters, in order.
pub open spec fn strip_layout(s: Seq<char>) -> Seq<char>
    decreases s.len(),
{
    if s.len() == 0 {
        Seq::empty()
    } else if is_layout_char(s.last()) {
        strip_layout(s.drop_last())
    } else {
        strip_layout(s.drop_last()).push(s.last())
    }
}

/// Stripping keeps no space, newline, carriage return or tab; it keeps a
/// single other character; and stripping a concatenation strips each part.
pub proof fn lemma_strip_layout(s: Seq<char>, t: Seq<char>, c: char)
    ensures
        forall|i: int|
            0 <= i < strip_layout(s).len() ==> #[trigger] strip_layout(s)[i] != ' '
                && strip_layout(s)[i] != '\n' && strip_layout(s)[i] != '\r' && strip_layout(s)[i]
                != '\t',
        strip_layout(seq![c]) == (if c == ' ' || c == '\n' || c == '\r' || c == '\t' {
            Seq::<char>::empty()
        } else {
            seq![c]
        }),
        strip_layout(s + t) == strip_layout(s) + strip_layout(t),
        strip_layout(s).len() <= s.len(),
    decreases t.len(), s.len(),
{
    assert(seq![c].drop_last() =~= Seq::<char>::empty());
    assert(strip_layout(Seq::<char>::empty()) == Seq::<char>::empty());
    assert(seq![c].last() == c);
    assert(Seq::<char>::empty().push(c) =~= seq![c]);
    if t.len() == 0 {
        assert(s + t =~= s);
        assert(strip_layout(t) =~= Seq::<char>::empty());
        if s.len() > 0 {
            lemma_strip_layout(s.drop_last(), t, c);
            let p = strip_layout(s.drop_last());
            assert forall|i: int| 0 <= i < strip_layout(s).len() implies #[trigger] strip_layout(s)[i]
                != ' ' && strip_layout(s)[i] != '\n' && strip_layout(s)[i] != '\r'
                && strip_layout(s)[i] != '\t' by {
                if i < p.len() {
                    assert(strip_layout(s)[i] == p[i]);
                }
            }
        }
    } else {
        lemma_strip_layout(s, t.drop_last(), c);
        assert((s + t).drop_last() =~= s + t.drop_last());
        assert((s + t).last() == t.last());
        assert(strip_layout(s + t) =~= strip_layout(s) + strip_layout(t));
    }
}

/// The characters of a typst string that produce glyphs: everything but
/// spaces, newlines, carriage returns and tabs.
pub fn glyph_chars(s: &str) -> (r: String)
    ensures
        r@ == strip_layout(s@),
{
    let n = s.unicode_len();
    let mut r = String::new();
    let mut i: usize = 0;
    while i < n
        invariant
            n == s@.len(),
            i <= n,
            r@ == strip_layout(s@.take(i as int)),
        decreases n - i,
    {
        let c = s.get_char(i);
        assert(s@.take(i as int + 1).drop_last() =~= s@.take(i as int));
        if !(c == ' ' || c == '\n' || c == '\r' || c == '\t') {
            push_char(&mut r, c);
        }
        i += 1;
    }
    assert(s@.take(n as int) =~= s@);
    r
}

/// The typst source of an inline code snippet: the code between backticks.
pub fn inline_code_source(code: &str) -> (r: String)
    ensures
        r@ == seq!['`'] + code@ + seq!['`'],
{
    let mut r = String::new();
    push_char(&mut r, '`');
    push_str(&mut r, code);
    push_char(&mut r, '`');
    r
}

/// The typst source of a multiline code block: three backticks, the
/// language (empty when none is given), a newline, the code and three
/// backticks.
pub fn multiline_code_source(code: &str, language: Option<&str>) -> (r: String)
    ensures
        r@ == seq!['`', '`', '`'] + (match language {
            Some(l) => l@,
            None => Seq::<char>::empty(),
        }) + seq!['\n'] + code@ + seq!['`', '`', '`'],
{
    let mut r = String::new();
    push_char(&mut r, '`');
    push_char(&mut r, '`');
    push_char(&mut r, '`');
    match language {
        Some(l) => push_str(&mut r, l),
        None => {},
    }
    push_char(&mut r, '\n');
    push_str(&mut r, code);
    push_char(&mut r, '`');
    push_char(&mut r, '`');
    push_char(&mut r, '`');
    r
}

/// The number of bytes that the UTF-8 encoding of `s` takes.
pub open spec fn utf8_len(s: Seq<char>) -> nat {
    vstd::utf8::encode_utf8(s).len()
}

/// A Text item construted through typst
///
/// It holds the characters of the typst string that produce glyphs and one
/// glyph per byte of them.
pub struct TypstText<V: Glyph> {
    chars: String,
    vitems: Vec<V>,
}

impl<V: Glyph> TypstText<V> {
    /// The characters that produce glyphs.
    pub closed spec fn spec_chars(&self) -> Seq<char> {
        self.chars@
    }

    /// The glyphs.
    pub closed spec fn spec_glyphs(&self) -> Seq<V> {
        self.vitems@
    }

    /// Create a TypstText from a typst string and the glyphs that its
    /// compiled output holds.
    pub fn new(typst_str: &str, vitems: Vec<V>) -> (t: Self)
        requires
            utf8_len(strip_layout(typst_str@)) == vitems@.len(),
        ensures
            t.spec_chars() == strip_layout(typst_str@),
            t.spec_glyphs() == vitems@,
    {
        TypstText { chars: glyph_chars(typst_str), vitems }
    }

    /// Inline code: `glyphs` are those that the compiled output of
    /// [`inline_code_source`] of `code` holds.
    pub fn new_inline_code(code: &str, vitems: Vec<V>) -> (t: Self)
        requires
            utf8_len(strip_layout(code@)) == vitems@.len(),
        ensures
            t.spec_chars() == strip_layout(code@),
            t.spec_glyphs() == vitems@,
    {
        TypstText { chars: glyph_chars(code), vitems }
    }

    /// Multiline code: `glyphs` are those that the compiled output of
    /// [`multiline_code_source`] of `code` holds.
    pub fn new_multiline_code(code: &str, vitems: Vec<V>) -> (t: Self)
        requires
            utf8_len(strip_layout(code@)) == vitems@.len(),
        ensures
            t.spec_chars() == strip_layout(code@),
            t.spec_glyphs() == vitems@,
    {
        TypstText { chars: glyph_chars(code), vitems }
    }

    /// The glyphs, taking the text apart.
    pub fn into_glyphs(self) -> (v: Vec<V>)
        ensures
            v@ == self.spec_glyphs(),
    {
        self.vitems
    }
}

/// Whether each equal run of `d` covers the same bytes in `old` and in `new`.
pub open spec fn equal_runs_agree(d: Seq<DiffChunk>, old: Seq<u8>, new: Seq<u8>) -> bool {
    forall|k: int|
        0 <= k < d.len() && (#[trigger] d[k]).op == DiffOp::Equal ==> old.subrange(
            old_span(d.take(k)) as int,
            old_span(d.take(k)) + d[k].size,
        ) == new.subrange(new_span(d.take(k)) as int, new_span(d.take(k)) + d[k].size)
}

/// `DiffMatchPatch::diff_main` over the bytes of two texts, converted to
/// plain runs. The runs it returns rebuild the old text from its equal and
/// deleted runs and the new text from its equal and inserted runs, so they
/// cover both texts byte for byte and each equal run covers the same bytes
/// in both. Which runs come out depends on a time limit, and the source
/// shows no input on which it fails, nor that it never fails; neither is
/// claimed, nor where the common prefix and suffix end up (its merge pass
/// may shift an edit over them).
#[verifier::external_body]
fn byte_diff(old: &str, new: &str) -> (r: Option<Vec<DiffChunk>>)
    ensures
        r matches Some(d) ==> diff_fits(d@, utf8_len(old@), utf8_len(new@)) && equal_runs_agree(
            d@,
            vstd::utf8::encode_utf8(old@),
            vstd::utf8::encode_utf8(new@),
        ),
{
    let diffs = DiffMatchPatch::new().diff_main::<Efficient>(old, new).ok()?;
    Some(diffs.iter().map(|d| DiffChunk {
        op: match d.op() {
            Ops::Equal => DiffOp::Equal,
            Ops::Delete => DiffOp::Delete,
            Ops::Insert => DiffOp::Insert,
        },
        size: d.size(),
    }).collect())
}

/// The runs that replace all `old_len` old glyphs by all `new_len` new ones.
pub open spec fn replace_all_runs(old_len: nat, new_len: nat) -> Seq<DiffChunk> {
    seq![
        DiffChunk { op: DiffOp::Delete, size: old_len as usize },
        DiffChunk { op: DiffOp::Insert, size: new_len as usize },
    ]
}

/// The runs to align `la` old and `lb` new glyphs along, given the outcome
/// `diff` of diffing the texts: its runs where there are some that cover
/// both glyph sequences, else one changed run holding all glyphs.
pub open spec fn chosen_runs(diff: Option<Vec<DiffChunk>>, la: nat, lb: nat) -> Seq<DiffChunk> {
    match diff {
        Some(d) => if diff_fits(d@, la, lb) {
            d@
        } else {
            replace_all_runs(la, lb)
        },
        None => replace_all_runs(la, lb),
    }
}

/// The runs that replace all `old_len` old bytes by all `new_len` new bytes.
fn replace_all(old_len: usize, new_len: usize) -> (d: Vec<DiffChunk>)
    ensures
        d@ == replace_all_runs(old_len as nat, new_len as nat),
        diff_fits(d@, old_len as nat, new_len as nat),
{
    let mut d: Vec<DiffChunk> = Vec::new();
    d.push(DiffChunk { op: DiffOp::Delete, size: old_len });
    d.push(DiffChunk { op: DiffOp::Insert, size: new_len });
    assert(d@ =~= replace_all_runs(old_len as nat, new_len as nat));
    proof {
        lemma_replace_all_fits(old_len as nat, new_len as nat);
    }
    d
}

/// One changed run holding everything covers both sides.
proof fn lemma_replace_all_fits(old_len: nat, new_len: nat)
    requires
        old_len <= usize::MAX,
        new_len <= usize::MAX,
    ensures
        diff_fits(replace_all_runs(old_len, new_len), old_len, new_len),
{
    let s = replace_all_runs(old_len, new_len);
    assert(s.drop_last().drop_last() =~= Seq::<DiffChunk>::empty());
    assert(s.drop_last().last() == s[0]);
    assert(s.drop_last().drop_last().len() == 0);
    assert(old_span(s.drop_last().drop_last()) == 0);
    assert(new_span(s.drop_last().drop_last()) == 0);
    assert(s[0].op == DiffOp::Delete);
    assert(old_span(s.drop_last()) == old_len);
    assert(new_span(s.drop_last()) == 0);
}

impl<V: Glyph> TypstText<V> {
    /// Align the glyphs of both texts along `diff`, the outcome of diffing
    /// the bytes of their characters: along its runs where it has some that
    /// cover both glyph sequences, else along one changed run that holds all
    /// glyphs. The characters are kept.
    pub fn align_along(&mut self, other: &mut Self, diff: Option<Vec<DiffChunk>>)
        ensures
            final(self).spec_chars() == old(self).spec_chars(),
            final(other).spec_chars() == old(other).spec_chars(),
            aligned_by_diff(
                old(self).spec_glyphs(),
                old(other).spec_glyphs(),
                chosen_runs(diff, old(self).spec_glyphs().len(), old(other).spec_glyphs().len()),
                final(self).spec_glyphs(),
                final(other).spec_glyphs(),
            ),
            max_len(old(self).spec_glyphs().len(), old(other).spec_glyphs().len())
                <= final(self).spec_glyphs().len() <= old(self).spec_glyphs().len() + old(
                other,
            ).spec_glyphs().len(),
    {
        let la = self.vitems.len();
        let lb = other.vitems.len();
        let diffs = match diff {
            Some(d) => if diff_fits_lengths(&d, la, lb) {
                d
            } else {
                replace_all(la, lb)
            },
            None => replace_all(la, lb),
        };
        assert(diffs@ == chosen_runs(diff, la as nat, lb as nat));
        let (a, b) = align_by_diff(&self.vitems, &other.vitems, &diffs);
        self.vitems = a;
        other.vitems = b;
    }
}

impl<V: Glyph> Alignable for TypstText<V> {
    open spec fn aligned_with(self, other: Self) -> bool {
        aligned_seq(self.spec_glyphs(), other.spec_glyphs())
    }

    /// Aligning keeps the characters and aligns the glyphs along some runs
    /// that cover both glyph sequences: runs whose equal runs cover the same
    /// bytes of both texts' characters, or one changed run holding all
    /// glyphs.
    open spec fn aligns_to(self, other: Self, new_self: Self, new_other: Self) -> bool {
        &&& new_self.spec_chars() == self.spec_chars()
        &&& new_other.spec_chars() == other.spec_chars()
        &&& exists|d: Seq<DiffChunk>|
            #[trigger] diff_fits(d, self.spec_glyphs().len(), other.spec_glyphs().len()) && (d
                == replace_all_runs(self.spec_glyphs().len(), other.spec_glyphs().len())
                || equal_runs_agree(
                d,
                vstd::utf8::encode_utf8(self.spec_chars()),
                vstd::utf8::encode_utf8(other.spec_chars()),
            )) && aligned_by_diff(
                self.spec_glyphs(),
                other.spec_glyphs(),
                d,
                new_self.spec_glyphs(),
                new_other.spec_glyphs(),
            )
    }

    fn is_aligned(&self, other: &Self) -> (r: bool) {
        if self.vitems.len() != other.vitems.len() {
            return false;
        }
        let mut i: usize = 0;
        while i < self.vitems.len()
            invariant
                self.vitems@.len() == other.vitems@.len(),
                i <= self.vitems@.len(),
                forall|k: int| 0 <= k < i ==> #[trigger] self.vitems@[k].aligned_with(
                    other.vitems@[k],
                ),
            decreases self.vitems@.len() - i,
        {
            if !self.vitems[i].is_aligned(&other.vitems[i]) {
                return false;
            }
            i += 1;
        }
        true
    }

    /// Aligns the glyphs along a byte diff of the two texts' characters (see
    /// [`TypstText::align_along`], which says what comes of each outcome of
    /// the diff). Both texts end with as many glyphs, at least as many as
    /// the longer one had and at most as many as both had together.
    fn align_with(&mut self, other: &mut Self)
        ensures
            final(self).spec_chars() == old(self).spec_chars(),
            final(other).spec_chars() == old(other).spec_chars(),
            final(self).spec_glyphs().len() == final(other).spec_glyphs().len(),
            max_len(old(self).spec_glyphs().len(), old(other).spec_glyphs().len())
                <= final(self).spec_glyphs().len() <= old(self).spec_glyphs().len() + old(
                other,
            ).spec_glyphs().len(),
    {
        let la_u = self.vitems.len();
        let lb_u = other.vitems.len();
        let diff = byte_diff(self.chars.as_str(), other.chars.as_str());
        proof {
            let la = la_u as nat;
            let lb = lb_u as nat;
            let d = chosen_runs(diff, la, lb);
            lemma_replace_all_fits(la, lb);
            assert(diff_fits(d, la, lb));
        }
        self.align_along(other, diff);
    }
}

} // verus!

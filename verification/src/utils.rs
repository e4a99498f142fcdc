use vstd::prelude::*;

verus! {

/// The source index that position `i` of a sequence resized from `len` to
/// `new_len` elements takes its element from.
pub open spec fn src_index(i: int, len: int, new_len: int) -> int {
    i * len / new_len
}


proof fn lemma_src_index_bounds(i: int, len: int, new_len: int)
    requires
        0 <= i < new_len,
        0 < len,
    ensures
        0 <= src_index(i, len, new_len) < len,
{
    assert(0 <= i * len) by (nonlinear_arith)
        requires 0 <= i, 0 < len;
    assert(i * len < new_len * len) by (nonlinear_arith)
        requires 0 <= i < new_len, 0 < len;
    assert(i * len / new_len < len) by (nonlinear_arith)
        requires 0 <= i * len < new_len * len, 0 < new_len;
    assert(0 <= i * len / new_len) by (nonlinear_arith)
        requires 0 <= i * len, 0 < new_len;
}

/// The source index of position `i`, computed without overflow.
fn source_index(i: usize, len: usize, new_len: usize) -> (k: usize)
    requires
        i < new_len,
        0 < len,
    ensures
        k == src_index(i as int, len as int, new_len as int),
        k < len,
{
    proof {
        lemma_src_index_bounds(i as int, len as int, new_len as int);
    }
    let a = i as u128;
    let b = len as u128;
    assert(a * b <= u128::MAX) by (nonlinear_arith)
        requires a <= u64::MAX, b <= u64::MAX;
    let k = a * b / (new_len as u128);
    k as usize
}

/// Resize the vec while preserving the order
pub fn resize_preserving_order<T: Clone>(vec: &[T], new_len: usize) -> (res: Vec<T>)
    requires
        vec@.len() > 0 || new_len == 0,
    ensures
        res@.len() == new_len,
        forall|i: int|
            0 <= i < new_len ==> cloned::<T>(
                vec@[src_index(i, vec@.len() as int, new_len as int)],
                #[trigger] res@[i],
            ),
{
    let mut res: Vec<T> = Vec::with_capacity(new_len);
    let len = vec.len();
    let mut i: usize = 0;
    while i < new_len
        invariant
            i <= new_len,
            len == vec@.len(),
            len > 0 || new_len == 0,
            res@.len() == i,
            forall|k: int|
                0 <= k < i ==> cloned::<T>(
                    vec@[src_index(k, len as int, new_len as int)],
                    #[trigger] res@[k],
                ),
        decreases new_len - i,
    {
        let index = source_index(i, len, new_len);
        proof { lemma_src_index_bounds(i as int, len as int, new_len as int); }
        res.push(vec[index].clone());
        i += 1;
    }
    res
}


/// The positions, in increasing order, among the first `n` positions of a
/// sequence resized from `len` to `new_len` elements whose element repeats
/// the source element of the position just before them.
pub open spec fn repeated_positions(len: int, new_len: int, n: nat) -> Seq<usize>
    decreases n,
{
    if n == 0 {
        Seq::empty()
    } else {
        let i = n - 1;
        let prev = repeated_positions(len, new_len, (n - 1) as nat);
        if i > 0 && src_index(i, len, new_len) == src_index(i - 1, len, new_len) {
            prev.push(i as usize)
        } else {
            prev
        }
    }
}

/// How many of the first `n` positions of a sequence resized from `len` to
/// `new_len` elements take their element from source index `k`.
pub open spec fn src_count(len: int, new_len: int, k: int, n: nat) -> nat
    decreases n,
{
    if n == 0 {
        0
    } else {
        src_count(len, new_len, k, (n - 1) as nat) + if src_index(n - 1, len, new_len) == k {
            1nat
        } else {
            0nat
        }
    }
}

proof fn lemma_src_count_le(len: int, new_len: int, k: int, n: nat)
    ensures
        src_count(len, new_len, k, n) <= n,
    decreases n,
{
    if n > 0 {
        lemma_src_count_le(len, new_len, k, (n - 1) as nat);
    }
}

/// The first position of a sequence resized from `len` to `new_len`
/// elements whose source index is `k` or more: `k * new_len / len`, rounded
/// up.
pub open spec fn first_pos(k: int, len: int, new_len: int) -> int {
    (k * new_len + len - 1) / len
}

/// `a / n == k` exactly where `k * n <= a < (k + 1) * n`.
proof fn lemma_div_is(a: int, n: int, k: int)
    requires
        0 <= a,
        0 < n,
    ensures
        (a / n == k) == (k * n <= a && a < (k + 1) * n),
{
    vstd::arithmetic::div_mod::lemma_fundamental_div_mod(a, n);
    vstd::arithmetic::div_mod::lemma_mod_pos_bound(a, n);
    let q = a / n;
    let r = a % n;
    assert(k * n <= a && a < (k + 1) * n ==> q == k) by (nonlinear_arith)
        requires
            a == n * q + r,
            0 <= r < n,
    ;
    assert(q == k ==> k * n <= a && a < (k + 1) * n) by (nonlinear_arith)
        requires
            a == n * q + r,
            0 <= r < n,
    ;
}

/// `x / d` rounded up is at most `i` exactly where `x <= i * d`.
proof fn lemma_ceil_div_le(x: int, d: int, i: int)
    requires
        0 <= x,
        0 < d,
    ensures
        ((x + d - 1) / d <= i) == (x <= i * d),
{
    vstd::arithmetic::div_mod::lemma_fundamental_div_mod(x + d - 1, d);
    vstd::arithmetic::div_mod::lemma_mod_pos_bound(x + d - 1, d);
    let q = (x + d - 1) / d;
    let r = (x + d - 1) % d;
    assert(q <= i ==> x <= i * d) by (nonlinear_arith)
        requires
            x + d - 1 == d * q + r,
            0 <= r < d,
    ;
    assert(x <= i * d ==> q <= i) by (nonlinear_arith)
        requires
            x + d - 1 == d * q + r,
            0 <= r < d,
    ;
}

/// Position `i` takes source index `k` exactly where it lies between the
/// first positions of `k` and of `k + 1`.
proof fn lemma_src_index_is(i: int, len: int, new_len: int, k: int)
    requires
        0 <= i,
        0 <= k,
        0 < len,
        0 < new_len,
    ensures
        (src_index(i, len, new_len) == k) == (first_pos(k, len, new_len) <= i && i < first_pos(
            k + 1,
            len,
            new_len,
        )),
{
    assert(0 <= i * len) by (nonlinear_arith)
        requires 0 <= i, 0 < len;
    assert(0 <= k * new_len) by (nonlinear_arith)
        requires 0 <= k, 0 < new_len;
    assert((k + 1) * new_len == k * new_len + new_len) by (nonlinear_arith);
    lemma_div_is(i * len, new_len, k);
    lemma_ceil_div_le(k * new_len, len, i);
    lemma_ceil_div_le((k + 1) * new_len, len, i);
    assert(i * len == len * i) by (nonlinear_arith);
}

/// How many of the first `n` positions take source index `k`: those from
/// its first position up to that of `k + 1`.
proof fn lemma_src_count_is(len: int, new_len: int, k: int, n: nat)
    requires
        0 <= k,
        0 < len,
        0 < new_len,
    ensures
        first_pos(k, len, new_len) <= first_pos(k + 1, len, new_len),
        src_count(len, new_len, k, n) == if n <= first_pos(k, len, new_len) {
            0
        } else if n <= first_pos(k + 1, len, new_len) {
            n - first_pos(k, len, new_len)
        } else {
            first_pos(k + 1, len, new_len) - first_pos(k, len, new_len)
        },
    decreases n,
{
    assert(k * new_len + len - 1 <= (k + 1) * new_len + len - 1) by (nonlinear_arith)
        requires 0 < new_len;
    assert(0 <= k * new_len) by (nonlinear_arith)
        requires 0 <= k, 0 < new_len;
    vstd::arithmetic::div_mod::lemma_div_is_ordered(
        k * new_len + len - 1,
        (k + 1) * new_len + len - 1,
        len,
    );
    if n > 0 {
        lemma_src_count_is(len, new_len, k, (n - 1) as nat);
        lemma_src_index_is(n - 1, len, new_len, k);
    }
}

/// Each source index `k` of a non-empty sequence is taken by as many
/// positions as lie between its first position and that of `k + 1`: a
/// share of `new_len / len`, rounded down or up.
pub proof fn lemma_src_count_all(len: int, new_len: int, k: int)
    requires
        0 <= k < len,
        0 < new_len,
    ensures
        src_count(len, new_len, k, new_len as nat) == first_pos(k + 1, len, new_len) - first_pos(
            k,
            len,
            new_len,
        ),
        new_len / len <= src_count(len, new_len, k, new_len as nat) <= new_len / len + 1,
{
    lemma_src_count_is(len, new_len, k, new_len as nat);
    assert(0 <= (k + 1) * new_len) by (nonlinear_arith)
        requires 0 <= k, 0 < new_len;
    assert((k + 1) * new_len <= new_len * len) by (nonlinear_arith)
        requires k + 1 <= len, 0 < new_len;
    lemma_ceil_div_le((k + 1) * new_len, len, new_len);
    let a = first_pos(k, len, new_len);
    let b = first_pos(k + 1, len, new_len);
    let q = new_len / len;
    vstd::arithmetic::div_mod::lemma_fundamental_div_mod(new_len, len);
    vstd::arithmetic::div_mod::lemma_mod_pos_bound(new_len, len);
    vstd::arithmetic::div_mod::lemma_fundamental_div_mod(k * new_len + len - 1, len);
    vstd::arithmetic::div_mod::lemma_mod_pos_bound(k * new_len + len - 1, len);
    vstd::arithmetic::div_mod::lemma_fundamental_div_mod((k + 1) * new_len + len - 1, len);
    vstd::arithmetic::div_mod::lemma_mod_pos_bound((k + 1) * new_len + len - 1, len);
    let r = new_len % len;
    let ra = (k * new_len + len - 1) % len;
    let rb = ((k + 1) * new_len + len - 1) % len;
    assert(q <= b - a <= q + 1) by (nonlinear_arith)
        requires
            new_len == len * q + r,
            0 <= r < len,
            k * new_len + len - 1 == len * a + ra,
            0 <= ra < len,
            (k + 1) * new_len + len - 1 == len * b + rb,
            0 <= rb < len,
            0 < len,
    ;
}

/// Growing a sequence `m` times over has every source index taken by `m`
/// positions.
pub proof fn lemma_src_count_multiple(len: int, m: int, k: int)
    requires
        0 <= k < len,
        0 < m,
    ensures
        src_count(len, m * len, k, (m * len) as nat) == m,
{
    assert(0 < m * len) by (nonlinear_arith)
        requires 0 < m, 0 <= k < len;
    lemma_src_count_all(len, m * len, k);
    assert(first_pos(k, len, m * len) == k * m) by {
        assert(k * (m * len) + len - 1 == len * (k * m) + (len - 1)) by (nonlinear_arith);
        vstd::arithmetic::div_mod::lemma_fundamental_div_mod_converse_div(
            k * (m * len) + len - 1,
            len,
            k * m,
            len - 1,
        );
    }
    assert(first_pos(k + 1, len, m * len) == (k + 1) * m) by {
        assert((k + 1) * (m * len) + len - 1 == len * ((k + 1) * m) + (len - 1)) by (nonlinear_arith);
        vstd::arithmetic::div_mod::lemma_fundamental_div_mod_converse_div(
            (k + 1) * (m * len) + len - 1,
            len,
            (k + 1) * m,
            len - 1,
        );
    }
    assert((k + 1) * m - k * m == m) by (nonlinear_arith);
}

/// Resize the vec while preserving the order
///
/// returns the repeated idxs
/// ```ignore
///                     *     *     *     *  repeated
/// [0, 1, 2, 3] -> [0, 0, 1, 1, 2, 2, 3 ,3]
/// ```
pub fn resize_preserving_order_with_repeated_indices<T: Clone>(vec: &[T], new_len: usize) -> (res:
    (Vec<T>, Vec<usize>))
    requires
        vec@.len() > 0 || new_len == 0,
    ensures
        res.0@.len() == new_len,
        forall|i: int|
            0 <= i < new_len ==> cloned::<T>(
                vec@[src_index(i, vec@.len() as int, new_len as int)],
                #[trigger] res.0@[i],
            ),
        res.1@ == repeated_positions(vec@.len() as int, new_len as int, new_len as nat),
        forall|v: int, w: int| 0 <= v < w < res.1@.len() ==> #[trigger] res.1@[v] < #[trigger] res.1@[w],
        vec@.len() <= new_len ==> res.1@.len() == new_len - vec@.len(),
        new_len <= vec@.len() ==> res.1@.len() == 0,
{
    proof {
        lemma_repeated_positions_increasing(vec@.len() as int, new_len as int, new_len as nat);
        if vec@.len() > 0 && new_len > 0 {
            lemma_repeated_positions_count(vec@.len() as int, new_len as int);
        }
    }
    let mut res: Vec<T> = Vec::with_capacity(new_len);
    let mut added_idxs: Vec<usize> = Vec::with_capacity(new_len);
    let mut prev_index: Option<usize> = None;
    let len = vec.len();
    let mut i: usize = 0;
    while i < new_len
        invariant
            i <= new_len,
            len == vec@.len(),
            len > 0 || new_len == 0,
            res@.len() == i,
            forall|k: int|
                0 <= k < i ==> cloned::<T>(
                    vec@[src_index(k, len as int, new_len as int)],
                    #[trigger] res@[k],
                ),
            added_idxs@ == repeated_positions(len as int, new_len as int, i as nat),
            i == 0 ==> prev_index is None,
            i > 0 ==> prev_index == Some(src_index(i - 1, len as int, new_len as int) as usize),
        decreases new_len - i,
    {
        let index = source_index(i, len, new_len);
        proof { lemma_src_index_bounds(i as int, len as int, new_len as int); }
        let repeated = match prev_index {
            Some(p) => p == index,
            None => false,
        };
        if repeated {
            added_idxs.push(res.len());
        }
        res.push(vec[index].clone());
        prev_index = Some(index);
        proof {
            if i > 0 {
                lemma_src_index_bounds(i - 1, len as int, new_len as int);
            }
        }
        i += 1;
    }
    (res, added_idxs)
}

/// Resize the vec while preserving the order
///
/// returns the repeated cnt of each value
/// ```ignore
///                 [2  2][2  2][2  2][2  2]
/// [0, 1, 2, 3] -> [0, 0, 1, 1, 2, 2, 3 ,3]
/// ```
pub fn resize_preserving_order_with_repeated_cnt<T: Clone>(vec: &[T], new_len: usize) -> (res: (
    Vec<T>,
    Vec<usize>,
))
    requires
        vec@.len() > 0 || new_len == 0,
    ensures
        res.0@.len() == new_len,
        forall|i: int|
            0 <= i < new_len ==> cloned::<T>(
                vec@[src_index(i, vec@.len() as int, new_len as int)],
                #[trigger] res.0@[i],
            ),
        res.1@.len() == new_len,
        forall|i: int|
            0 <= i < new_len ==> #[trigger] res.1@[i] == src_count(
                vec@.len() as int,
                new_len as int,
                src_index(i, vec@.len() as int, new_len as int),
                new_len as nat,
            ),
        forall|i: int|
            0 <= i < new_len ==> #[trigger] res.1@[i] == first_pos(
                src_index(i, vec@.len() as int, new_len as int) + 1,
                vec@.len() as int,
                new_len as int,
            ) - first_pos(src_index(i, vec@.len() as int, new_len as int), vec@.len() as int, new_len as int),
{
    let len = vec.len();
    let mut res: Vec<T> = Vec::with_capacity(new_len);
    let mut cnts: Vec<usize> = vec![0; len];
    let mut src_indices: Vec<usize> = Vec::with_capacity(new_len);
    let mut i: usize = 0;
    while i < new_len
        invariant
            i <= new_len,
            len == vec@.len(),
            len > 0 || new_len == 0,
            res@.len() == i,
            forall|k: int|
                0 <= k < i ==> cloned::<T>(
                    vec@[src_index(k, len as int, new_len as int)],
                    #[trigger] res@[k],
                ),
            cnts@.len() == len,
            forall|k: int|
                0 <= k < len ==> #[trigger] cnts@[k] == src_count(
                    len as int,
                    new_len as int,
                    k,
                    i as nat,
                ),
            src_indices@.len() == i,
            forall|k: int|
                0 <= k < i ==> #[trigger] src_indices@[k] == src_index(
                    k,
                    len as int,
                    new_len as int,
                ),
        decreases new_len - i,
    {
        let index = source_index(i, len, new_len);
        proof {
            lemma_src_index_bounds(i as int, len as int, new_len as int);
            lemma_src_count_le(len as int, new_len as int, index as int, i as nat);
        }
        let c = cnts[index];
        cnts.set(index, c + 1);
        res.push(vec[index].clone());
        src_indices.push(index);
        i += 1;
    }
    let mut counts: Vec<usize> = Vec::with_capacity(new_len);
    let mut j: usize = 0;
    while j < new_len
        invariant
            j <= new_len,
            len == vec@.len(),
            len > 0 || new_len == 0,
            cnts@.len() == len,
            forall|k: int|
                0 <= k < len ==> #[trigger] cnts@[k] == src_count(
                    len as int,
                    new_len as int,
                    k,
                    new_len as nat,
                ),
            src_indices@.len() == new_len,
            forall|k: int|
                0 <= k < new_len ==> #[trigger] src_indices@[k] == src_index(
                    k,
                    len as int,
                    new_len as int,
                ),
            counts@.len() == j,
            forall|k: int|
                0 <= k < j ==> #[trigger] counts@[k] == src_count(
                    len as int,
                    new_len as int,
                    src_index(k, len as int, new_len as int),
                    new_len as nat,
                ),
        decreases new_len - j,
    {
        proof { lemma_src_index_bounds(j as int, len as int, new_len as int); }
        let s = src_indices[j];
        counts.push(cnts[s]);
        j += 1;
    }
    proof {
        assert forall|i: int| 0 <= i < new_len implies #[trigger] counts@[i] == first_pos(
            src_index(i, len as int, new_len as int) + 1,
            len as int,
            new_len as int,
        ) - first_pos(src_index(i, len as int, new_len as int), len as int, new_len as int) by {
            lemma_src_index_bounds(i, len as int, new_len as int);
            lemma_src_count_all(len as int, new_len as int, src_index(i, len as int, new_len as int));
        }
    }
    (res, counts)
}


/// Extend the vec with last element
///
/// The vec grows to `new_len` elements; each new element is a clone of the
/// last element, or `T::default()` when the vec was empty.
pub fn extend_with_last<T: Clone + Default>(vec: &mut Vec<T>, new_len: usize)
    requires
        new_len >= old(vec)@.len(),
    ensures
        final(vec)@.len() == new_len,
        final(vec)@.subrange(0, old(vec)@.len() as int) == old(vec)@,
        old(vec)@.len() > 0 ==> forall|j: int|
            old(vec)@.len() <= j < new_len ==> cloned::<T>(
                old(vec)@.last(),
                #[trigger] final(vec)@[j],
            ),
        old(vec)@.len() == 0 ==> forall|j: int|
            0 <= j < new_len ==> call_ensures(T::default, (), #[trigger] final(vec)@[j]),
{
    let ghost old_v = vec@;
    let old_len = vec.len();
    let mut i: usize = old_len;
    while i < new_len
        invariant
            old_len == old_v.len(),
            old_len <= i <= new_len,
            vec@.len() == i,
            vec@.subrange(0, old_len as int) == old_v,
            old_len > 0 ==> forall|j: int|
                old_len <= j < i ==> cloned::<T>(old_v.last(), #[trigger] vec@[j]),
            old_len == 0 ==> forall|j: int|
                0 <= j < i ==> call_ensures(T::default, (), #[trigger] vec@[j]),
        decreases new_len - i,
    {
        let x: T = if old_len > 0 {
            proof {
                assert(vec@[old_len - 1] == vec@.subrange(0, old_len as int)[old_len - 1]);
            }
            vec[old_len - 1].clone()
        } else {
            T::default()
        };
        vec.push(x);
        proof {
            assert(vec@.subrange(0, old_len as int) =~= old_v);
        }
        i += 1;
    }
}


/// Resizing preserves the order: a later position never takes its element
/// from an earlier source index, and every source index is in range.
pub proof fn lemma_resize_preserves_order(len: int, new_len: int, i: int, j: int)
    requires
        0 < len,
        0 <= i <= j < new_len,
    ensures
        0 <= src_index(i, len, new_len) <= src_index(j, len, new_len) < len,
{
    lemma_src_index_bounds(i, len, new_len);
    lemma_src_index_bounds(j, len, new_len);
    assert(i * len <= j * len) by (nonlinear_arith)
        requires i <= j, 0 < len;
    assert(i * len / new_len <= j * len / new_len) by (nonlinear_arith)
        requires i * len <= j * len, 0 < new_len;
}

/// Resizing to the same length takes every element from its own position.
pub proof fn lemma_resize_same_len_is_identity(len: int, i: int)
    requires
        0 < len,
        0 <= i < len,
    ensures
        src_index(i, len, len) == i,
{
    assert(i * len / len == i) by (nonlinear_arith)
        requires 0 < len;
}

/// Growing a non-empty sequence loses no element: every source index is
/// taken by some position of the result.
pub proof fn lemma_resize_growth_keeps_every_element(len: int, new_len: int, k: int)
    requires
        0 < len <= new_len,
        0 <= k < len,
    ensures
        exists|i: int| 0 <= i < new_len && src_index(i, len, new_len) == k,
{
    let i = (k * new_len + len - 1) / len;
    assert(i * len >= k * new_len && i * len < k * new_len + len) by (nonlinear_arith)
        requires i == (k * new_len + len - 1) / len, 0 < len, 0 <= k;
    assert(k * new_len + len <= (k + 1) * new_len) by (nonlinear_arith)
        requires len <= new_len;
    assert(i * len / new_len == k) by (nonlinear_arith)
        requires
            i * len >= k * new_len,
            i * len < (k + 1) * new_len,
            0 < new_len;
    assert(0 <= i < new_len) by (nonlinear_arith)
        requires
            i == (k * new_len + len - 1) / len,
            0 <= k < len,
            0 < len <= new_len;
    assert(src_index(i, len, new_len) == k);
}

/// Shrinking never takes two positions from the same source element: later
/// positions take strictly later source indices.
pub proof fn lemma_resize_shrink_is_injective(len: int, new_len: int, i: int, j: int)
    requires
        0 < new_len <= len,
        0 <= i < j < new_len,
    ensures
        src_index(i, len, new_len) < src_index(j, len, new_len),
{
    assert(j * len >= i * len + len) by (nonlinear_arith)
        requires i < j, 0 < len;
    assert(i * len / new_len < j * len / new_len) by (nonlinear_arith)
        requires j * len >= i * len + new_len, 0 < new_len, 0 <= i * len;
}

/// A position is reported as repeated exactly when it takes its element
/// from the same source index as the position before it.
pub proof fn lemma_repeated_positions_characterization(len: int, new_len: int, n: nat, p: int)
    requires
        0 <= p < n,
        n <= usize::MAX,
    ensures
        repeated_positions(len, new_len, n).contains(p as usize) <==> (p > 0 && src_index(
            p,
            len,
            new_len,
        ) == src_index(p - 1, len, new_len)),
    decreases n,
{
    let i = n - 1;
    let prev = repeated_positions(len, new_len, (n - 1) as nat);
    let cur = repeated_positions(len, new_len, n);
    let rep = i > 0 && src_index(i, len, new_len) == src_index(i - 1, len, new_len);
    lemma_repeated_positions_below(len, new_len, (n - 1) as nat);
    if p < n - 1 {
        lemma_repeated_positions_characterization(len, new_len, (n - 1) as nat, p);
    }
    if rep {
        assert(cur == prev.push(i as usize));
        assert(cur[prev.len() as int] == i as usize);
        if cur.contains(p as usize) {
            let w = choose|w: int| 0 <= w < cur.len() && #[trigger] cur[w] == p as usize;
            if w < prev.len() {
                assert(prev[w] == p as usize);
            }
        }
        if prev.contains(p as usize) {
            let w = choose|w: int| 0 <= w < prev.len() && #[trigger] prev[w] == p as usize;
            assert(cur[w] == p as usize);
        }
    } else {
        assert(cur == prev);
    }
    if p == n - 1 {
        if prev.contains(p as usize) {
            let w = choose|w: int| 0 <= w < prev.len() && #[trigger] prev[w] == p as usize;
            assert(prev[w] < n - 1);
        }
    }
}

proof fn lemma_repeated_positions_below(len: int, new_len: int, n: nat)
    requires
        n <= usize::MAX + 1,
    ensures
        forall|w: int|
            0 <= w < repeated_positions(len, new_len, n).len() ==> #[trigger] repeated_positions(
                len,
                new_len,
                n,
            )[w] < n,
    decreases n,
{
    if n > 0 {
        lemma_repeated_positions_below(len, new_len, (n - 1) as nat);
        let prev = repeated_positions(len, new_len, (n - 1) as nat);
        let i = n - 1;
        if i > 0 && src_index(i, len, new_len) == src_index(i - 1, len, new_len) {
            assert(repeated_positions(len, new_len, n) == prev.push(i as usize));
            assert forall|w: int| 0 <= w < prev.push(i as usize).len() implies #[trigger] prev.push(
                i as usize,
            )[w] < n by {
                if w < prev.len() {
                    assert(prev.push(i as usize)[w] == prev[w]);
                }
            }
        }
    }
}

/// The repeated positions come in increasing order.
proof fn lemma_repeated_positions_increasing(len: int, new_len: int, n: nat)
    requires
        n <= usize::MAX + 1,
    ensures
        forall|v: int, w: int|
            0 <= v < w < repeated_positions(len, new_len, n).len() ==> #[trigger] repeated_positions(
                len,
                new_len,
                n,
            )[v] < #[trigger] repeated_positions(len, new_len, n)[w],
    decreases n,
{
    if n > 0 {
        lemma_repeated_positions_increasing(len, new_len, (n - 1) as nat);
        lemma_repeated_positions_below(len, new_len, (n - 1) as nat);
        let prev = repeated_positions(len, new_len, (n - 1) as nat);
        let i = n - 1;
        if i > 0 && src_index(i, len, new_len) == src_index(i - 1, len, new_len) {
            let cur = prev.push(i as usize);
            assert(repeated_positions(len, new_len, n) == cur);
            assert forall|v: int, w: int| 0 <= v < w < cur.len() implies #[trigger] cur[v]
                < #[trigger] cur[w] by {
                assert(cur[v] == prev[v]);
                if w < prev.len() {
                    assert(cur[w] == prev[w]);
                }
            }
        }
    }
}

/// When growing, consecutive positions take the same or the next source
/// index.
proof fn lemma_growth_step(len: int, new_len: int, i: int)
    requires
        0 < len <= new_len,
        0 < i < new_len,
    ensures
        src_index(i - 1, len, new_len) <= src_index(i, len, new_len) <= src_index(i - 1, len, new_len)
            + 1,
{
    lemma_resize_preserves_order(len, new_len, i - 1, i);
    let x = (i - 1) * len;
    assert(i * len == x + len) by (nonlinear_arith)
        requires x == (i - 1) * len;
    assert(0 <= x) by (nonlinear_arith)
        requires x == (i - 1) * len, i >= 1, len > 0;
    assert((x + len) / new_len <= x / new_len + 1) by (nonlinear_arith)
        requires 0 <= x, 0 < len <= new_len;
}

proof fn lemma_growth_repeats(len: int, new_len: int, n: nat)
    requires
        0 < len <= new_len,
        1 <= n <= new_len,
    ensures
        repeated_positions(len, new_len, n).len() == n - 1 - src_index(n - 1, len, new_len),
    decreases n,
{
    if n == 1 {
        assert(0 * len / new_len == 0) by (nonlinear_arith)
            requires 0 < new_len;
        assert(repeated_positions(len, new_len, 0) =~= Seq::<usize>::empty());
    } else {
        lemma_growth_repeats(len, new_len, (n - 1) as nat);
        lemma_growth_step(len, new_len, n - 1);
    }
}

proof fn lemma_shrink_repeats(len: int, new_len: int, n: nat)
    requires
        0 < new_len <= len,
        n <= new_len,
    ensures
        repeated_positions(len, new_len, n).len() == 0,
    decreases n,
{
    if n > 0 {
        lemma_shrink_repeats(len, new_len, (n - 1) as nat);
        if n >= 2 {
            lemma_resize_shrink_is_injective(len, new_len, n - 2, n - 1);
        }
    }
}

/// Growing a non-empty sequence repeats exactly `new_len - len` positions;
/// shrinking it (or keeping its length) repeats none.
pub proof fn lemma_repeated_positions_count(len: int, new_len: int)
    requires
        0 < len,
        0 < new_len,
    ensures
        len <= new_len ==> repeated_positions(len, new_len, new_len as nat).len() == new_len - len,
        new_len <= len ==> repeated_positions(len, new_len, new_len as nat).len() == 0,
{
    if len <= new_len {
        lemma_growth_repeats(len, new_len, new_len as nat);
        assert((new_len - 1) * len / new_len == len - 1) by (nonlinear_arith)
            requires 0 < len <= new_len;
    } else {
        lemma_shrink_repeats(len, new_len, new_len as nat);
    }
}

} // verus!

use vstd::prelude::*;

verus! {

/// A type to support calling `clear` on a row of any type.
pub trait AnyClear {
    fn clear(&mut self);
}

impl<T> AnyClear for Vec<T> {
    fn clear(&mut self)
        ensures
            final(self)@.len() == 0,
    {
        Vec::clear(self);
    }
}

/// A container of rows binned by the type of what they hold.
///
/// Each row is found by its key, the number that stands for its type; the
/// keys of the rows are distinct.
pub struct TypeBinnedVec<V> {
    keys: Vec<u64>,
    rows: Vec<Vec<V>>,
}

impl<V> TypeBinnedVec<V> {
    #[verifier::type_invariant]
    spec fn wf(self) -> bool {
        &&& self.keys@.len() == self.rows@.len()
        &&& forall|i: int, j: int|
            0 <= i < j < self.keys@.len() ==> self.keys@[i] != self.keys@[j]
    }

    /// The row of the key `key`: empty when there is none.
    pub closed spec fn row(self, key: u64) -> Seq<V> {
        if exists|i: int| 0 <= i < self.keys@.len() && self.keys@[i] == key {
            let i = choose|i: int| 0 <= i < self.keys@.len() && self.keys@[i] == key;
            self.rows@[i]@
        } else {
            Seq::empty()
        }
    }

    /// Whether a row has been made for the key `key`.
    pub closed spec fn has_row(self, key: u64) -> bool {
        exists|i: int| 0 <= i < self.keys@.len() && self.keys@[i] == key
    }

    proof fn lemma_row_at(self, i: int)
        requires
            self.wf(),
            0 <= i < self.keys@.len(),
        ensures
            self.row(self.keys@[i]) == self.rows@[i]@,
            self.has_row(self.keys@[i]),
    {
        let j = choose|j: int| 0 <= j < self.keys@.len() && self.keys@[j] == self.keys@[i];
        assert(j == i);
    }

    /// An empty container.
    pub fn new() -> (t: Self)
        ensures
            forall|key: u64| #[trigger] t.row(key) == Seq::<V>::empty(),
            forall|key: u64| !#[trigger] t.has_row(key),
    {
        TypeBinnedVec { keys: Vec::new(), rows: Vec::new() }
    }

    /// The index of the row of `key`, when there is one.
    fn find(&self, key: u64) -> (r: Option<usize>)
        ensures
            match r {
                Some(i) => i < self.keys@.len() && self.keys@[i as int] == key,
                None => !self.has_row(key),
            },
    {
        let mut i: usize = 0;
        while i < self.keys.len()
            invariant
                i <= self.keys@.len(),
                forall|k: int| 0 <= k < i ==> self.keys@[k] != key,
            decreases self.keys@.len() - i,
        {
            if self.keys[i] == key {
                return Some(i);
            }
            i += 1;
        }
        None
    }

    /// The row of `key`; an empty slice when there is none.
    pub fn get_row(&self, key: u64) -> (r: &[V])
        ensures
            r@ == self.row(key),
    {
        proof {
            use_type_invariant(self);
        }
        match self.find(key) {
            Some(i) => {
                proof {
                    self.lemma_row_at(i as int);
                }
                self.rows[i].as_slice()
            },
            None => &[],
        }
    }
}


impl<V> TypeBinnedVec<V> {
    /// The index of the row of `key`, made empty first when there is none.
    fn init_row(&mut self, key: u64) -> (i: usize)
        ensures
            i < final(self).keys@.len(),
            final(self).keys@[i as int] == key,
            final(self).row(key) == old(self).row(key),
            forall|k: u64| k != key ==> #[trigger] final(self).row(k) == old(self).row(k),
            forall|k: u64| #[trigger] final(self).has_row(k) == (old(self).has_row(k) || k == key),
    {
        proof {
            use_type_invariant(&*self);
        }
        match self.find(key) {
            Some(i) => i,
            None => {
                let ghost old_self = *self;
                let mut taken = TypeBinnedVec::new();
                std::mem::swap(self, &mut taken);
                let TypeBinnedVec { keys: mut keys, rows: mut rows } = taken;
                let n = keys.len();
                keys.push(key);
                rows.push(Vec::new());
                *self = TypeBinnedVec { keys, rows };
                proof {
                    assert(self.keys@ == old_self.keys@.push(key));
                    assert(self.rows@.len() == n + 1);
                    assert(forall|j: int| 0 <= j < n ==> self.rows@[j] == old_self.rows@[j]);
                    assert(self.rows@[n as int]@.len() == 0);
                    assert forall|k: u64| #[trigger] self.has_row(k) == (old_self.has_row(k) || k == key) by {
                        if k == key {
                            assert(self.keys@[n as int] == k);
                        }
                        if self.has_row(k) {
                            let j = choose|j: int| 0 <= j < self.keys@.len() && self.keys@[j] == k;
                            if j < n {
                                assert(old_self.keys@[j] == k);
                            }
                        }
                        if old_self.has_row(k) {
                            let j = choose|j: int| 0 <= j < old_self.keys@.len() && old_self.keys@[j] == k;
                            assert(self.keys@[j] == k);
                        }
                    }
                    self.lemma_row_at(n as int);
                    assert forall|k: u64| k != key implies #[trigger] self.row(k) == old_self.row(k) by {
                        if old_self.has_row(k) {
                            let j = choose|j: int| 0 <= j < old_self.keys@.len() && old_self.keys@[j] == k;
                            old_self.lemma_row_at(j);
                            assert(self.keys@[j] == k);
                            self.lemma_row_at(j);
                        }
                    }
                }
                n
            },
        }
    }
}


impl<V> TypeBinnedVec<V> {
    /// Replace row `i` by `f(row i)`, keeping the keys.
    fn replace_row(&mut self, i: usize, new_row: Vec<V>)
        requires
            i < old(self).keys@.len(),
        ensures
            final(self).keys@ == old(self).keys@,
            final(self).rows@ == old(self).rows@.update(i as int, new_row),
    {
        proof {
            use_type_invariant(&*self);
        }
        let mut taken = TypeBinnedVec::new();
        std::mem::swap(self, &mut taken);
        let TypeBinnedVec { keys, rows: mut rows } = taken;
        rows.set(i, new_row);
        *self = TypeBinnedVec { keys, rows };
    }

    /// Take row `i` out, leaving it empty.
    fn take_row(&mut self, i: usize) -> (r: Vec<V>)
        requires
            i < old(self).keys@.len(),
        ensures
            final(self).keys@ == old(self).keys@,
            final(self).rows@.len() == old(self).rows@.len(),
            forall|j: int| 0 <= j < old(self).rows@.len() && j != i ==> #[trigger] final(self).rows@[j]
                == old(self).rows@[j],
            final(self).rows@[i as int]@.len() == 0,
            r@ == old(self).rows@[i as int]@,
    {
        proof {
            use_type_invariant(&*self);
        }
        let mut taken = TypeBinnedVec::new();
        std::mem::swap(self, &mut taken);
        let TypeBinnedVec { keys, rows: mut rows } = taken;
        let mut row: Vec<V> = Vec::new();
        std::mem::swap(&mut row, &mut rows[i]);
        *self = TypeBinnedVec { keys, rows };
        row
    }
}


impl<V> TypeBinnedVec<V> {
    /// Rows keep their keys; changing row `i` changes only the row of its key.
    proof fn lemma_rows_update(a: Self, b: Self, i: int)
        requires
            a.wf(),
            b.wf(),
            a.keys@ == b.keys@,
            0 <= i < a.keys@.len(),
            forall|j: int| 0 <= j < a.rows@.len() && j != i ==> b.rows@[j] == a.rows@[j],
        ensures
            b.row(a.keys@[i]) == b.rows@[i]@,
            forall|k: u64| k != a.keys@[i] ==> #[trigger] b.row(k) == a.row(k),
            forall|k: u64| #[trigger] b.has_row(k) == a.has_row(k),
    {
        b.lemma_row_at(i);
        assert forall|k: u64| k != a.keys@[i] implies #[trigger] b.row(k) == a.row(k) by {
            if a.has_row(k) {
                let j = choose|j: int| 0 <= j < a.keys@.len() && a.keys@[j] == k;
                a.lemma_row_at(j);
                b.lemma_row_at(j);
            }
        }
    }

    /// Append `packet` to the row of `key`, making the row when there is none.
    pub fn push(&mut self, key: u64, packet: V)
        ensures
            final(self).row(key) == old(self).row(key).push(packet),
            forall|k: u64| k != key ==> #[trigger] final(self).row(k) == old(self).row(k),
            forall|k: u64| #[trigger] final(self).has_row(k) == (old(self).has_row(k) || k == key),
    {
        let i = self.init_row(key);
        proof {
            use_type_invariant(&*self);
            self.lemma_row_at(i as int);
        }
        let ghost mid = *self;
        let mut row = self.take_row(i);
        row.push(packet);
        self.replace_row(i, row);
        proof {
            use_type_invariant(&*self);
            Self::lemma_rows_update(mid, *self, i as int);
        }
    }

    /// Append `packets` to the row of `key`, making the row when there is
    /// none.
    pub fn extend(&mut self, key: u64, packets: Vec<V>)
        ensures
            final(self).row(key) == old(self).row(key) + packets@,
            forall|k: u64| k != key ==> #[trigger] final(self).row(k) == old(self).row(k),
            forall|k: u64| #[trigger] final(self).has_row(k) == (old(self).has_row(k) || k == key),
    {
        let i = self.init_row(key);
        proof {
            use_type_invariant(&*self);
            self.lemma_row_at(i as int);
        }
        let ghost mid = *self;
        let mut row = self.take_row(i);
        let mut packets = packets;
        row.append(&mut packets);
        self.replace_row(i, row);
        proof {
            use_type_invariant(&*self);
            Self::lemma_rows_update(mid, *self, i as int);
        }
    }

    /// Empty every row, keeping the rows.
    pub fn clear(&mut self)
        ensures
            forall|k: u64| #[trigger] final(self).row(k) == Seq::<V>::empty(),
            forall|k: u64| #[trigger] final(self).has_row(k) == old(self).has_row(k),
    {
        proof {
            use_type_invariant(&*self);
        }
        let ghost old_self = *self;
        let mut taken = TypeBinnedVec::new();
        std::mem::swap(self, &mut taken);
        let TypeBinnedVec { keys, rows } = taken;
        let mut cleared: Vec<Vec<V>> = Vec::new();
        let mut i: usize = 0;
        while i < rows.len()
            invariant
                i <= rows@.len(),
                cleared@.len() == i,
                forall|j: int| 0 <= j < i ==> (#[trigger] cleared@[j])@.len() == 0,
            decreases rows@.len() - i,
        {
            cleared.push(Vec::new());
            i += 1;
        }
        *self = TypeBinnedVec { keys, rows: cleared };
        proof {
            assert forall|k: u64| #[trigger] self.row(k) == Seq::<V>::empty() by {
                if self.has_row(k) {
                    let j = choose|j: int| 0 <= j < self.keys@.len() && self.keys@[j] == k;
                    self.lemma_row_at(j);
                }
            }
        }
    }
}


/// A marker for the types of render packets.
pub trait RenderPacketMark {

}

/// A type-erased container of handles to render packets, binned by the
/// packet type; its inner is a [`TypeBinnedVec`].
pub struct RenderPackets<H> {
    inner: TypeBinnedVec<H>,
}

impl<H> RenderPackets<H> {
    /// The handles of the packets of the type with key `kind`.
    pub closed spec fn packets(self, kind: u64) -> Seq<H> {
        self.inner.row(kind)
    }

    /// An empty container.
    pub fn new() -> (r: Self)
        ensures
            forall|kind: u64| #[trigger] r.packets(kind) == Seq::<H>::empty(),
    {
        RenderPackets { inner: TypeBinnedVec::new() }
    }

    /// The handles of the packets of the type with key `kind`.
    pub fn get(&self, kind: u64) -> (r: &[H])
        ensures
            r@ == self.packets(kind),
    {
        self.inner.get_row(kind)
    }

    /// Add the handles `packets` to those of the type with key `kind`.
    pub fn extend(&mut self, kind: u64, packets: Vec<H>)
        ensures
            final(self).packets(kind) == old(self).packets(kind) + packets@,
            forall|k: u64| k != kind ==> #[trigger] final(self).packets(k) == old(self).packets(k),
    {
        self.inner.extend(kind, packets);
    }

    /// Add the handle `packet` to those of the type with key `kind`.
    pub fn push(&mut self, kind: u64, packet: H)
        ensures
            final(self).packets(kind) == old(self).packets(kind).push(packet),
            forall|k: u64| k != kind ==> #[trigger] final(self).packets(k) == old(self).packets(k),
    {
        self.inner.push(kind, packet);
    }

    /// Drop all handles.
    pub fn clear(&mut self)
        ensures
            forall|k: u64| #[trigger] final(self).packets(k) == Seq::<H>::empty(),
    {
        self.inner.clear();
    }
}

/// The node that clears the render target and the depth buffer.
pub struct ClearNode;

/// What the merged vitem buffer of a frame holds: how many items and how
/// many points.
#[derive(Debug, Clone, Copy)]
pub struct MergedCounts {
    pub item_count: u32,
    pub total_points: u32,
}

/// A draw of `instance_count` instances of a quad (4 vertices).
#[derive(Debug, Clone, Copy, PartialEq, Eq, Structural)]
pub struct QuadDraw {
    pub vertex_count: u32,
    pub instance_count: u32,
}

/// The quads that a pass over the merged buffer draws: one per item, and
/// nothing when there is no buffer or it holds no item.
pub open spec fn quad_draw_spec(merged: Option<MergedCounts>) -> Option<QuadDraw> {
    match merged {
        Some(m) => if m.item_count == 0 {
            None
        } else {
            Some(QuadDraw { vertex_count: 4, instance_count: m.item_count })
        },
        None => None,
    }
}

/// A pass draws nothing exactly when there is no merged buffer or it holds
/// no item; otherwise it draws one 4-vertex quad per item.
pub proof fn lemma_quad_draw(merged: Option<MergedCounts>)
    ensures
        quad_draw_spec(merged) is None <==> (merged is None || merged->0.item_count == 0),
        quad_draw_spec(merged) matches Some(d) ==> d.vertex_count == 4 && d.instance_count
            == merged->0.item_count && d.instance_count > 0,
{
}

fn quad_draw(merged: Option<MergedCounts>) -> (r: Option<QuadDraw>)
    ensures
        r == quad_draw_spec(merged),
{
    match merged {
        Some(m) => if m.item_count == 0 {
            None
        } else {
            Some(QuadDraw { vertex_count: 4, instance_count: m.item_count })
        },
        None => None,
    }
}

/// The pass that draws the merged vitems' colors.
pub struct MergedVItemColorNode;

impl MergedVItemColorNode {
    /// The draw of the color pass over the merged buffer.
    pub fn draw(&self, merged: Option<MergedCounts>) -> (r: Option<QuadDraw>)
        ensures
            r == quad_draw_spec(merged),
    {
        quad_draw(merged)
    }
}

/// The pass that draws the merged vitems' depths.
pub struct MergedVItemDepthNode;

impl MergedVItemDepthNode {
    /// The draw of the depth pass over the merged buffer.
    pub fn draw(&self, merged: Option<MergedCounts>) -> (r: Option<QuadDraw>)
        ensures
            r == quad_draw_spec(merged),
    {
        quad_draw(merged)
    }
}

/// The compute pass that maps the points of the merged vitems.
pub struct MergedVItemComputeNode;

impl MergedVItemComputeNode {
    /// The number of workgroups (of 256 points each) that the compute pass
    /// dispatches: enough for all points, and no dispatch when there is no
    /// buffer or it holds no item.
    pub fn workgroups(&self, merged: Option<MergedCounts>) -> (r: Option<u32>)
        ensures
            match merged {
                Some(m) => if m.item_count == 0 {
                    r is None
                } else {
                    r == Some(((m.total_points + 255) / 256) as u32)
                },
                None => r is None,
            },
    {
        match merged {
            Some(m) => if m.item_count == 0 {
                None
            } else {
                Some(m.total_points / 256 + if m.total_points % 256 == 0 {
                    0
                } else {
                    1
                })
            },
            None => None,
        }
    }
}

/// The workgroups of the compute pass cover every point, with fewer than
/// one workgroup to spare.
pub proof fn lemma_workgroups_cover_points(total_points: u32)
    ensures
        ((total_points + 255) / 256) * 256 >= total_points,
        ((total_points + 255) / 256) * 256 < total_points + 256,
{
    assert(((total_points + 255) / 256) * 256 >= total_points && ((total_points + 255) / 256) * 256
        < total_points + 256) by (nonlinear_arith);
}

} // verus!

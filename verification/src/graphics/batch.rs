//! The texture batching of the GPU backends: indices wait in a batch until the bound
//! texture has to change or the batch is flushed, and then go to the GPU together.
use vstd::prelude::*;

verus! {

/// A group of indices drawn in one call with one texture.
pub struct DrawBatch {
    pub texture: u32,
    pub indices: Vec<u32>,
}

/// A triangle to batch: the texture it needs, if any, and its three vertex indices.
#[derive(Clone, Copy, Debug)]
pub struct TriangleRef {
    pub image: Option<u32>,
    pub indices: [u32; 3],
}

/// The indices waiting to be drawn and the texture they will be drawn with.
pub struct TextureBatch {
    /// The texture the waiting indices will be drawn with
    pub texture: u32,
    /// The blank texture that stands for "no texture bound"
    pub null_texture: u32,
    /// The indices waiting to be drawn
    pub indices: Vec<u32>,
}

/// The state of a batch as mathematical values.
pub struct BatchView {
    pub texture: u32,
    pub null_texture: u32,
    pub pending: Seq<u32>,
}

impl View for TextureBatch {
    type V = BatchView;

    open spec fn view(&self) -> BatchView {
        BatchView { texture: self.texture, null_texture: self.null_texture, pending: self.indices@ }
    }
}

pub open spec fn batches_view(bs: Seq<DrawBatch>) -> Seq<(u32, Seq<u32>)> {
    bs.map_values(|b: DrawBatch| (b.texture, b.indices@))
}

/// A flush: the waiting indices, if there are any, are drawn with the bound texture,
/// and the blank texture is bound again.
pub open spec fn flush_spec(st: BatchView) -> (Seq<(u32, Seq<u32>)>, BatchView) {
    if st.pending.len() == 0 {
        (Seq::empty(), st)
    } else {
        (
            seq![(st.texture, st.pending)],
            BatchView { texture: st.null_texture, null_texture: st.null_texture, pending: Seq::empty() },
        )
    }
}

/// Binding `texture`: when another texture than the blank one is bound and differs from
/// it, the waiting indices are flushed first.
pub open spec fn switch_spec(st: BatchView, texture: u32) -> (Seq<(u32, Seq<u32>)>, BatchView) {
    if st.texture != st.null_texture && st.texture != texture {
        let (b, s2) = flush_spec(st);
        (b, BatchView { texture, ..s2 })
    } else {
        (Seq::empty(), BatchView { texture, ..st })
    }
}

/// One triangle: its texture is bound, if it has one, and its indices wait.
pub open spec fn triangle_spec(st: BatchView, t: TriangleRef) -> (Seq<(u32, Seq<u32>)>, BatchView) {
    let (b, s2) = match t.image {
        Some(img) => switch_spec(st, img),
        None => (Seq::empty(), st),
    };
    (b, BatchView { pending: s2.pending + seq![t.indices[0], t.indices[1], t.indices[2]], ..s2 })
}

/// A list of triangles, one after another.
pub open spec fn triangles_spec(st: BatchView, ts: Seq<TriangleRef>) -> (
    Seq<(u32, Seq<u32>)>,
    BatchView,
)
    decreases ts.len(),
{
    if ts.len() == 0 {
        (Seq::empty(), st)
    } else {
        let (b1, s1) = triangle_spec(st, ts[0]);
        let (b2, s2) = triangles_spec(s1, ts.drop_first());
        (b1 + b2, s2)
    }
}

/// Drawing a list of triangles: each is batched, and what waits at the end is flushed.
pub open spec fn draw_spec(st: BatchView, ts: Seq<TriangleRef>) -> (Seq<(u32, Seq<u32>)>, BatchView) {
    let (b1, s1) = triangles_spec(st, ts);
    let (b2, s2) = flush_spec(s1);
    (b1 + b2, s2)
}

impl TextureBatch {
    /// A batch with nothing waiting and the blank texture bound.
    pub fn new(null_texture: u32) -> (b: TextureBatch)
        ensures
            b@ == (BatchView { texture: null_texture, null_texture, pending: Seq::empty() }),
    {
        TextureBatch { texture: null_texture, null_texture, indices: Vec::new() }
    }

    /// Hand out the waiting indices, with their texture, if there are any.
    pub fn flush(&mut self) -> (r: Option<DrawBatch>)
        ensures
            (match r {
                Some(b) => seq![(b.texture, b.indices@)],
                None => Seq::empty(),
            }, final(self)@) == flush_spec(old(self)@),
    {
        if self.indices.len() == 0 {
            None
        } else {
            let mut indices: Vec<u32> = Vec::new();
            std::mem::swap(&mut indices, &mut self.indices);
            let texture = self.texture;
            self.texture = self.null_texture;
            proof {
                assert(self.indices@ =~= Seq::<u32>::empty());
            }
            Some(DrawBatch { texture, indices })
        }
    }

    /// Bind a texture, handing out the waiting indices first when the bound texture
    /// changes away from a real one.
    pub fn switch_texture(&mut self, texture: u32) -> (r: Option<DrawBatch>)
        ensures
            (match r {
                Some(b) => seq![(b.texture, b.indices@)],
                None => Seq::empty(),
            }, final(self)@) == switch_spec(old(self)@, texture),
    {
        let mut r = None;
        if self.texture != self.null_texture && self.texture != texture {
            r = self.flush();
        }
        self.texture = texture;
        r
    }

    /// Add the indices of some vertices that start at `offset` in the vertex buffer,
    /// drawn with `texture`.
    pub fn add(&mut self, texture: u32, offset: u32, indices: &Vec<u32>) -> (r: Option<DrawBatch>)
        requires
            forall|i: int| 0 <= i < indices@.len() ==> #[trigger] indices@[i] + offset <= u32::MAX,
        ensures
            ({
                let (b, s) = switch_spec(old(self)@, texture);
                &&& (match r {
                    Some(x) => seq![(x.texture, x.indices@)],
                    None => Seq::empty(),
                }) == b
                &&& final(self)@ == BatchView {
                    pending: s.pending + indices@.map_values(|i: u32| (i + offset) as u32),
                    ..s
                }
            }),
    {
        let r = self.switch_texture(texture);
        let ghost mid = self.indices@;
        let mut k: usize = 0;
        while k < indices.len()
            invariant
                k <= indices@.len(),
                forall|i: int| 0 <= i < indices@.len() ==> #[trigger] indices@[i] + offset <= u32::MAX,
                self.indices@ == mid + indices@.take(k as int).map_values(|i: u32| (i + offset) as u32),
                self.texture == texture,
                self.null_texture == old(self).null_texture,
            decreases indices@.len() - k,
        {
            self.indices.push(indices[k] + offset);
            k = k + 1;
            assert(self.indices@ =~= mid + indices@.take(k as int).map_values(|i: u32| (i + offset) as u32));
        }
        assert(indices@.take(k as int) =~= indices@);
        r
    }

    /// Batch a list of triangles and flush at the end, handing out every batch drawn.
    pub fn draw_triangles(&mut self, triangles: &Vec<TriangleRef>) -> (batches: Vec<DrawBatch>)
        ensures
            (batches_view(batches@), final(self)@) == draw_spec(old(self)@, triangles@),
    {
        let mut batches: Vec<DrawBatch> = Vec::new();
        let ghost st0 = self@;
        let mut k: usize = 0;
        assert(triangles@.skip(0) =~= triangles@);
        assert(batches_view(batches@) + triangles_spec(self@, triangles@.skip(0)).0 =~= triangles_spec(st0, triangles@).0);
        while k < triangles.len()
            invariant
                k <= triangles@.len(),
                triangles_spec(st0, triangles@).0 == batches_view(batches@) + triangles_spec(
                    self@,
                    triangles@.skip(k as int),
                ).0,
                triangles_spec(st0, triangles@).1 == triangles_spec(self@, triangles@.skip(k as int)).1,
            decreases triangles@.len() - k,
        {
            let t = triangles[k];
            let ghost s_before = self@;
            let ghost b_before = batches_view(batches@);
            let ghost rest = triangles@.skip(k as int);
            assert(rest[0] == t);
            assert(rest.drop_first() =~= triangles@.skip(k + 1));
            match t.image {
                Some(img) => {
                    match self.switch_texture(img) {
                        Some(b) => {
                            batches.push(b);
                        },
                        None => {},
                    }
                },
                None => {},
            }
            self.indices.push(t.indices[0]);
            self.indices.push(t.indices[1]);
            self.indices.push(t.indices[2]);
            let ghost (tb, ts) = triangle_spec(s_before, t);
            assert(self@.pending =~= ts.pending);
            assert(self@ == ts);
            assert(batches_view(batches@) =~= b_before + tb);
            assert(b_before + triangles_spec(s_before, rest).0 =~= batches_view(batches@)
                + triangles_spec(self@, triangles@.skip(k + 1)).0);
            k = k + 1;
        }
        assert(triangles@.skip(k as int) =~= Seq::<TriangleRef>::empty());
        let ghost bv = batches_view(batches@);
        match self.flush() {
            Some(b) => {
                batches.push(b);
            },
            None => {},
        }
        assert(bv + Seq::<(u32, Seq<u32>)>::empty() =~= bv);
        assert(batches_view(batches@) =~= bv + flush_spec(triangles_spec(st0, triangles@).1).0);
        batches
    }
}

/// The indices of a filled convex polygon of `count` vertices that start at vertex
/// `first`: a fan of triangles from the first vertex.
pub open spec fn fan_spec(first: u32, count: nat) -> Seq<u32> {
    Seq::new(
        ((count - 2) * 3) as nat,
        |i: int|
            if i % 3 == 0 {
                first
            } else if i % 3 == 1 {
                (first + i / 3 + 1) as u32
            } else {
                (first + i / 3 + 2) as u32
            },
    )
}

/// The indices of a filled convex polygon of `count` vertices that start at `first`.
pub fn fan_indices(first: u32, count: usize) -> (indices: Vec<u32>)
    requires
        count >= 2,
        first + count <= u32::MAX + 1,
        (count - 2) * 3 <= usize::MAX,
    ensures
        indices@ == fan_spec(first, count as nat),
{
    let mut indices: Vec<u32> = Vec::new();
    let total = (count - 2) * 3;
    let mut current: u32 = 1;
    let mut i: usize = 0;
    while i < total
        invariant
            total == (count - 2) * 3,
            i % 3 == 0,
            i <= total,
            current == i / 3 + 1,
            first + count <= u32::MAX + 1,
            count >= 2,
            indices@ == fan_spec(first, count as nat).take(i as int),
        decreases total - i,
    {
        indices.push(first);
        indices.push(first + current);
        indices.push(first + current + 1);
        current = current + 1;
        i = i + 3;
        assert(indices@ =~= fan_spec(first, count as nat).take(i as int));
    }
    assert(indices@ =~= fan_spec(first, count as nat));
    indices
}

/// All indices of a list of batches, one batch after another.
pub open spec fn batch_indices(bs: Seq<(u32, Seq<u32>)>) -> Seq<u32>
    decreases bs.len(),
{
    if bs.len() == 0 {
        Seq::empty()
    } else {
        bs[0].1 + batch_indices(bs.drop_first())
    }
}

/// All indices of a list of triangles, one triangle after another.
pub open spec fn triangle_indices(ts: Seq<TriangleRef>) -> Seq<u32>
    decreases ts.len(),
{
    if ts.len() == 0 {
        Seq::empty()
    } else {
        seq![ts[0].indices[0], ts[0].indices[1], ts[0].indices[2]] + triangle_indices(ts.drop_first())
    }
}

/// No batch is empty.
pub open spec fn batches_nonempty(bs: Seq<(u32, Seq<u32>)>) -> bool {
    forall|i: int| 0 <= i < bs.len() ==> (#[trigger] bs[i]).1.len() > 0
}

proof fn lemma_batch_indices_append(a: Seq<(u32, Seq<u32>)>, b: Seq<(u32, Seq<u32>)>)
    ensures
        batch_indices(a + b) == batch_indices(a) + batch_indices(b),
    decreases a.len(),
{
    if a.len() == 0 {
        assert(a + b =~= b);
        assert(Seq::<u32>::empty() + batch_indices(b) =~= batch_indices(b));
    } else {
        assert((a + b).drop_first() =~= a.drop_first() + b);
        lemma_batch_indices_append(a.drop_first(), b);
        assert(a[0].1 + (batch_indices(a.drop_first()) + batch_indices(b)) =~= (a[0].1
            + batch_indices(a.drop_first())) + batch_indices(b));
    }
}

proof fn lemma_flush_conserves(st: BatchView)
    ensures
        batch_indices(flush_spec(st).0) + flush_spec(st).1.pending == st.pending,
        batches_nonempty(flush_spec(st).0),
        flush_spec(st).1.null_texture == st.null_texture,
{
    if st.pending.len() > 0 {
        let bs = seq![(st.texture, st.pending)];
        assert(bs.drop_first() =~= Seq::<(u32, Seq<u32>)>::empty());
        assert(batch_indices(bs.drop_first()) == Seq::<u32>::empty());
        assert(batch_indices(bs) == st.pending + Seq::<u32>::empty());
        assert(st.pending + Seq::<u32>::empty() + Seq::<u32>::empty() =~= st.pending);
    } else {
        assert(Seq::<u32>::empty() + st.pending =~= st.pending);
    }
}

proof fn lemma_triangles_conserve(st: BatchView, ts: Seq<TriangleRef>)
    ensures
        batch_indices(triangles_spec(st, ts).0) + triangles_spec(st, ts).1.pending == st.pending
            + triangle_indices(ts),
        batches_nonempty(triangles_spec(st, ts).0),
        triangles_spec(st, ts).1.null_texture == st.null_texture,
    decreases ts.len(),
{
    if ts.len() == 0 {
        assert(Seq::<u32>::empty() + st.pending =~= st.pending + Seq::<u32>::empty());
    } else {
        let t = ts[0];
        let (b1, s1) = triangle_spec(st, t);
        let (b0, s0) = match t.image {
            Some(img) => switch_spec(st, img),
            None => (Seq::empty(), st),
        };
        if let Some(img) = t.image {
            if st.texture != st.null_texture && st.texture != img {
                lemma_flush_conserves(st);
            } else {
                assert(Seq::<u32>::empty() + st.pending =~= st.pending);
            }
        } else {
            assert(Seq::<u32>::empty() + st.pending =~= st.pending);
        }
        assert(batch_indices(b0) + s0.pending == st.pending);
        let tri = seq![t.indices[0], t.indices[1], t.indices[2]];
        lemma_triangles_conserve(s1, ts.drop_first());
        let (b2, s2) = triangles_spec(s1, ts.drop_first());
        lemma_batch_indices_append(b1, b2);
        assert(batch_indices(b1 + b2) + s2.pending =~= st.pending + triangle_indices(ts));
        assert forall|i: int| 0 <= i < (b1 + b2).len() implies (#[trigger] (b1 + b2)[i]).1.len() > 0 by {
            if i >= b1.len() {
                assert((b1 + b2)[i] == b2[i - b1.len()]);
            }
        }
    }
}

/// Batching loses no index, invents none and keeps their order: drawing a list of
/// triangles hands out, over all its batches, the indices that were waiting followed by
/// the indices of every triangle, each batch non-empty, and leaves nothing waiting.
pub proof fn lemma_draw_hands_out_every_index(st: BatchView, ts: Seq<TriangleRef>)
    ensures
        batch_indices(draw_spec(st, ts).0) == st.pending + triangle_indices(ts),
        batches_nonempty(draw_spec(st, ts).0),
        draw_spec(st, ts).1.pending.len() == 0,
        draw_spec(st, ts).1.null_texture == st.null_texture,
{
    lemma_triangles_conserve(st, ts);
    let (b1, s1) = triangles_spec(st, ts);
    lemma_flush_conserves(s1);
    let (b2, s2) = flush_spec(s1);
    lemma_batch_indices_append(b1, b2);
    assert(s2.pending.len() == 0);
    assert(batch_indices(b2) =~= s1.pending + Seq::<u32>::empty());
    assert(batch_indices(b1 + b2) =~= st.pending + triangle_indices(ts));
    assert forall|i: int| 0 <= i < (b1 + b2).len() implies (#[trigger] (b1 + b2)[i]).1.len() > 0 by {
        if i >= b1.len() {
            assert((b1 + b2)[i] == b2[i - b1.len()]);
        }
    }
}

/// Binding a texture: the new texture is bound; when a real texture is bound and the new
/// one differs from it (the blank texture included), the waiting indices are first handed
/// out with the bound texture, so indices never change texture while they wait; otherwise
/// nothing is handed out and the waiting indices stay.
pub proof fn lemma_switch_keeps_textures(st: BatchView, texture: u32)
    ensures
        switch_spec(st, texture).1.texture == texture,
        switch_spec(st, texture).1.null_texture == st.null_texture,
        (st.texture != st.null_texture && st.texture != texture) ==> (switch_spec(
            st,
            texture,
        ).1.pending.len() == 0 && (st.pending.len() > 0 ==> switch_spec(st, texture).0 == seq![
            (st.texture, st.pending),
        ]) && (st.pending.len() == 0 ==> switch_spec(st, texture).0.len() == 0)),
        !(st.texture != st.null_texture && st.texture != texture) ==> (switch_spec(st, texture).0.len()
            == 0 && switch_spec(st, texture).1.pending == st.pending),
{
}

/// Flushing hands out every waiting index with the bound texture, in one batch, and binds
/// the blank texture; with nothing waiting it does nothing.
pub proof fn lemma_flush_hands_out_waiting(st: BatchView)
    ensures
        st.pending.len() > 0 ==> flush_spec(st).0 == seq![(st.texture, st.pending)]
            && flush_spec(st).1.pending.len() == 0 && flush_spec(st).1.texture == st.null_texture,
        st.pending.len() == 0 ==> flush_spec(st).0.len() == 0 && flush_spec(st).1 == st,
{
}

/// Batching one triangle: a textured triangle binds its texture as binding does (handing
/// out what waits when a different real texture is bound), an untextured one keeps the
/// bound texture; either way its three indices then wait, after those already waiting.
pub proof fn lemma_triangle_batching(st: BatchView, t: TriangleRef)
    ensures
        ({
            let (b, s2) = triangle_spec(st, t);
            let bound = match t.image {
                Some(img) => img,
                None => st.texture,
            };
            let flushes = st.texture != st.null_texture && st.texture != bound;
            &&& s2.texture == bound
            &&& s2.null_texture == st.null_texture
            &&& (flushes && st.pending.len() > 0) ==> (b == seq![(st.texture, st.pending)] && s2.pending
                == seq![t.indices[0], t.indices[1], t.indices[2]])
            &&& !(flushes && st.pending.len() > 0) ==> (b.len() == 0 && s2.pending == st.pending
                + seq![t.indices[0], t.indices[1], t.indices[2]])
        }),
{
    lemma_switch_keeps_textures(st, match t.image {
        Some(img) => img,
        None => st.texture,
    });
    if let Some(img) = t.image {
        let (b, s1) = switch_spec(st, img);
        if st.texture != st.null_texture && st.texture != img && st.pending.len() > 0 {
            assert(s1.pending + seq![t.indices[0], t.indices[1], t.indices[2]] =~= seq![
                t.indices[0],
                t.indices[1],
                t.indices[2],
            ]);
        }
    }
}

} // verus!

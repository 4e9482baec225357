//! The index and state-change bookkeeping of the draw queue: elements and the vertex
//! indices they add, the lists of render-state changes keyed by element index, their
//! merge, and the plan of draw ranges that a flush issues.
use vstd::prelude::*;

verus! {

/// A shape to draw, using uploaded vertex values
#[derive(Clone, Copy, Debug)]
pub enum Element {
    /// A single point, with the given vertex index
    Point(u32),
    /// A line 1 pixel thick, with the two given vertices
    Line([u32; 2]),
    /// A filled triangle, with the 3 given indices
    Triangle([u32; 3]),
}

/// How a range of element indices is drawn.
#[derive(Clone, Copy, PartialEq, Eq, Structural, Debug)]
pub enum GeometryMode {
    Points,
    Lines,
    Triangles,
}

/// The geometry mode an element is drawn with.
pub open spec fn element_mode(e: Element) -> GeometryMode {
    match e {
        Element::Point(_) => GeometryMode::Points,
        Element::Line(_) => GeometryMode::Lines,
        Element::Triangle(_) => GeometryMode::Triangles,
    }
}

/// The vertex indices of an element, shifted by `offset`.
pub open spec fn element_indices(e: Element, offset: u32) -> Seq<u32> {
    match e {
        Element::Point(a) => seq![(a + offset) as u32],
        Element::Line(l) => seq![(l[0] + offset) as u32, (l[1] + offset) as u32],
        Element::Triangle(t) => seq![
            (t[0] + offset) as u32,
            (t[1] + offset) as u32,
            (t[2] + offset) as u32,
        ],
    }
}

/// Every vertex index of the element stays a `u32` when shifted by `offset`.
pub open spec fn element_fits(e: Element, offset: u32) -> bool {
    match e {
        Element::Point(a) => a + offset <= u32::MAX,
        Element::Line(l) => l[0] + offset <= u32::MAX && l[1] + offset <= u32::MAX,
        Element::Triangle(t) => t[0] + offset <= u32::MAX && t[1] + offset <= u32::MAX && t[2]
            + offset <= u32::MAX,
    }
}

/// The indices of a list of elements, shifted by `offset`, one after another.
pub open spec fn elements_indices(es: Seq<Element>, offset: u32) -> Seq<u32>
    decreases es.len(),
{
    if es.len() == 0 {
        Seq::empty()
    } else {
        element_indices(es[0], offset) + elements_indices(es.drop_first(), offset)
    }
}

/// A change list after one more change of value `v` at `index`: unchanged when its
/// last value is equal to `v`.
pub open spec fn with_change<T>(changes: Seq<(usize, T)>, index: usize, v: T) -> Seq<(usize, T)> {
    if changes.len() > 0 && changes.last().1 == v {
        changes
    } else {
        changes.push((index, v))
    }
}

/// The geometry-mode change list after adding `es`, whose first element starts at
/// element index `start`.
pub open spec fn mode_changes_after(
    changes: Seq<(usize, GeometryMode)>,
    start: int,
    es: Seq<Element>,
) -> Seq<(usize, GeometryMode)>
    decreases es.len(),
{
    if es.len() == 0 {
        changes
    } else {
        mode_changes_after(
            with_change(changes, start as usize, element_mode(es[0])),
            start + element_indices(es[0], 0).len(),
            es.drop_first(),
        )
    }
}

/// `after` is `before` with one more change at `index`, whose value is a clone of `v`.
pub open spec fn pushed_clone<T: Clone>(
    before: Seq<(usize, T)>,
    after: Seq<(usize, T)>,
    index: usize,
    v: T,
) -> bool {
    &&& after.len() == before.len() + 1
    &&& after == before.push((index, after.last().1))
    &&& cloned::<T>(v, after.last().1)
}

/// Record a change of state at `index` unless the last recorded value is equal to it
/// (as `are_eq` decides).
pub fn insert_if_changed<T: Clone>(
    buffer: &mut Vec<(usize, T)>,
    entry: (usize, &T),
    are_eq: impl FnOnce(&T, &T) -> bool,
)
    requires
        forall|a: &T, b: &T| are_eq.requires((a, b)),
    ensures
        old(buffer)@.len() == 0 ==> pushed_clone(old(buffer)@, final(buffer)@, entry.0, *entry.1),
        old(buffer)@.len() > 0 ==> (final(buffer)@ == old(buffer)@ && are_eq.ensures(
            (&old(buffer)@.last().1, entry.1),
            true,
        )) || (pushed_clone(old(buffer)@, final(buffer)@, entry.0, *entry.1) && are_eq.ensures(
            (&old(buffer)@.last().1, entry.1),
            false,
        )),
{
    let (index, value) = entry;
    let len = buffer.len();
    let insert = if len > 0 {
        !are_eq(&buffer[len - 1].1, value)
    } else {
        true
    };
    if insert {
        let v = value.clone();
        buffer.push((index, v));
    }
}

fn push_mode_change(changes: &mut Vec<(usize, GeometryMode)>, index: usize, mode: GeometryMode)
    ensures
        final(changes)@ == with_change(old(changes)@, index, mode),
{
    let len = changes.len();
    if len == 0 || changes[len - 1].1 != mode {
        changes.push((index, mode));
    }
}

/// Append the vertex indices of `elements`, shifted by `offset`, and record a geometry
/// mode change wherever an element's mode differs from the last recorded one.
pub fn push_elements(
    index_data: &mut Vec<u32>,
    mode_changes: &mut Vec<(usize, GeometryMode)>,
    elements: &Vec<Element>,
    offset: u32,
)
    requires
        forall|i: int| 0 <= i < elements@.len() ==> element_fits(#[trigger] elements@[i], offset),
        old(index_data)@.len() + 3 * elements@.len() <= usize::MAX,
    ensures
        final(index_data)@ == old(index_data)@ + elements_indices(elements@, offset),
        final(mode_changes)@ == mode_changes_after(
            old(mode_changes)@,
            old(index_data)@.len() as int,
            elements@,
        ),
{
    let ghost idx0 = index_data@;
    let ghost ch0 = mode_changes@;
    let mut i: usize = 0;
    assert(elements@.skip(0) =~= elements@);
    while i < elements.len()
        invariant
            i <= elements@.len(),
            forall|k: int| 0 <= k < elements@.len() ==> element_fits(#[trigger] elements@[k], offset),
            index_data@.len() <= idx0.len() + 3 * i,
            idx0.len() + 3 * elements@.len() <= usize::MAX,
            idx0 + elements_indices(elements@, offset) == index_data@ + elements_indices(
                elements@.skip(i as int),
                offset,
            ),
            mode_changes_after(ch0, idx0.len() as int, elements@) == mode_changes_after(
                mode_changes@,
                index_data@.len() as int,
                elements@.skip(i as int),
            ),
        decreases elements@.len() - i,
    {
        let e = elements[i];
        let ghost rest = elements@.skip(i as int);
        assert(rest[0] == e);
        assert(rest.drop_first() =~= elements@.skip(i + 1));
        assert(element_fits(elements@[i as int], offset));
        let start = index_data.len();
        let ghost before = index_data@;
        match e {
            Element::Point(a) => {
                index_data.push(a + offset);
                push_mode_change(mode_changes, start, GeometryMode::Points);
            },
            Element::Line(l) => {
                index_data.push(l[0] + offset);
                index_data.push(l[1] + offset);
                push_mode_change(mode_changes, start, GeometryMode::Lines);
            },
            Element::Triangle(t) => {
                index_data.push(t[0] + offset);
                index_data.push(t[1] + offset);
                index_data.push(t[2] + offset);
                push_mode_change(mode_changes, start, GeometryMode::Triangles);
            },
        }
        assert(index_data@ =~= before + element_indices(e, offset));
        assert(before + elements_indices(rest, offset) =~= index_data@ + elements_indices(
            elements@.skip(i + 1),
            offset,
        ));
        i = i + 1;
    }
    assert(elements@.skip(i as int) =~= Seq::<Element>::empty());
    assert(index_data@ + Seq::<u32>::empty() =~= index_data@);
}

/// The elements that fill a convex polygon of `len` points: a fan of triangles from
/// the first point.
pub open spec fn fill_polygon_spec(len: u32) -> Seq<Element> {
    Seq::new((len - 2) as nat, |i: int| Element::Triangle([0u32, (i + 1) as u32, (i + 2) as u32]))
}

/// The elements that fill a convex polygon of `len` points.
pub fn fill_polygon_elements(len: u32) -> (es: Vec<Element>)
    requires
        len >= 3,
    ensures
        es@ == fill_polygon_spec(len),
{
    let mut es: Vec<Element> = Vec::new();
    let mut idx: u32 = 0;
    while idx < len - 2
        invariant
            len >= 3,
            idx <= len - 2,
            es@ == fill_polygon_spec(len).take(idx as int),
        decreases len - 2 - idx,
    {
        es.push(Element::Triangle([0, idx + 1, idx + 2]));
        idx = idx + 1;
        assert(es@ =~= fill_polygon_spec(len).take(idx as int));
    }
    assert(es@ =~= fill_polygon_spec(len));
    es
}

/// The elements of a path through `len` points: a line between each point and the next.
pub open spec fn stroke_path_spec(len: u32) -> Seq<Element> {
    Seq::new((len - 1) as nat, |i: int| Element::Line([i as u32, (i + 1) as u32]))
}

/// The elements of a path through `len` points.
pub fn stroke_path_elements(len: u32) -> (es: Vec<Element>)
    requires
        len >= 1,
    ensures
        es@ == stroke_path_spec(len),
{
    let mut es: Vec<Element> = Vec::new();
    let mut idx: u32 = 0;
    while idx < len - 1
        invariant
            len >= 1,
            idx <= len - 1,
            es@ == stroke_path_spec(len).take(idx as int),
        decreases len - 1 - idx,
    {
        es.push(Element::Line([idx, idx + 1]));
        idx = idx + 1;
        assert(es@ =~= stroke_path_spec(len).take(idx as int));
    }
    assert(es@ =~= stroke_path_spec(len));
    es
}

/// The elements of the outline of a polygon of `len` points: a line between each point
/// and the next, and from the last back to the first.
pub open spec fn stroke_polygon_spec(len: u32) -> Seq<Element> {
    Seq::new(len as nat, |i: int| Element::Line([i as u32, ((i + 1) % (len as int)) as u32]))
}

/// The elements of the outline of a polygon of `len` points.
pub fn stroke_polygon_elements(len: u32) -> (es: Vec<Element>)
    requires
        len >= 3,
    ensures
        es@ == stroke_polygon_spec(len),
{
    let mut es: Vec<Element> = Vec::new();
    let mut idx: u32 = 0;
    while idx < len
        invariant
            len >= 3,
            idx <= len,
            es@ == stroke_polygon_spec(len).take(idx as int),
        decreases len - idx,
    {
        es.push(Element::Line([idx, (idx + 1) % len]));
        idx = idx + 1;
        assert(es@ =~= stroke_polygon_spec(len).take(idx as int));
    }
    assert(es@ =~= stroke_polygon_spec(len));
    es
}

/// The two triangles of a textured quad whose corners are vertices 0, 1, 2 and 3.
pub fn quad_elements() -> (es: Vec<Element>)
    ensures
        es@ == seq![Element::Triangle([0u32, 1, 2]), Element::Triangle([2u32, 3, 0])],
{
    let mut es: Vec<Element> = Vec::new();
    es.push(Element::Triangle([0, 1, 2]));
    es.push(Element::Triangle([2, 3, 0]));
    assert(es@ =~= seq![Element::Triangle([0u32, 1, 2]), Element::Triangle([2u32, 3, 0])]);
    es
}

// ---------------------------------------------------------------------------
// Merging change lists
// ---------------------------------------------------------------------------

/// Merge two change lists by element index; on equal indices the change of `u` comes
/// first. Each change keeps its value on its own side of the pair.
pub open spec fn merge_changes<U, V>(u: Seq<(usize, U)>, v: Seq<(usize, V)>) -> Seq<
    (usize, (Option<U>, Option<V>)),
>
    decreases u.len() + v.len(),
{
    if u.len() == 0 && v.len() == 0 {
        Seq::empty()
    } else if v.len() == 0 || (u.len() > 0 && u[0].0 <= v[0].0) {
        seq![(u[0].0, (Some(u[0].1), None))] + merge_changes(u.drop_first(), v)
    } else {
        seq![(v[0].0, (None, Some(v[0].1)))] + merge_changes(u, v.drop_first())
    }
}

fn reversed<T>(v: Vec<T>) -> (r: Vec<T>)
    ensures
        r@ == v@.reverse(),
{
    let ghost v0 = v@;
    let mut v = v;
    let mut r: Vec<T> = Vec::new();
    while v.len() > 0
        invariant
            v0 == v@ + r@.reverse(),
        decreases v@.len(),
    {
        let ghost before = r@;
        let x = v.pop().unwrap();
        r.push(x);
        assert(r@.reverse() =~= seq![x] + before.reverse());
        assert(v0 =~= v@ + r@.reverse());
    }
    assert(v0 =~= r@.reverse());
    assert(r@ =~= r@.reverse().reverse());
    r
}

proof fn lemma_reverse_drop_last<T>(s: Seq<T>)
    requires
        s.len() > 0,
    ensures
        s.reverse()[0] == s.last(),
        s.reverse().drop_first() == s.drop_last().reverse(),
{
    assert(s.reverse().drop_first() =~= s.drop_last().reverse());
}

/// Merge two change lists into one, ordered by element index, keeping both lists' own
/// order; on equal indices the change of `u` comes first.
pub fn join_change_lists<U, V>(u: Vec<(usize, U)>, v: Vec<(usize, V)>) -> (joined: Vec<
    (usize, (Option<U>, Option<V>)),
>)
    ensures
        joined@ == merge_changes(u@, v@),
{
    let ghost u0 = u@;
    let ghost v0 = v@;
    let mut ur = reversed(u);
    let mut vr = reversed(v);
    assert(ur@.reverse() =~= u0);
    assert(vr@.reverse() =~= v0);
    let mut out: Vec<(usize, (Option<U>, Option<V>))> = Vec::new();
    assert(out@ + merge_changes(u0, v0) =~= merge_changes(u0, v0));
    while ur.len() > 0 || vr.len() > 0
        invariant
            merge_changes(u0, v0) == out@ + merge_changes(ur@.reverse(), vr@.reverse()),
        decreases ur@.len() + vr@.len(),
    {
        let ghost us = ur@.reverse();
        let ghost vs = vr@.reverse();
        let take_u = if vr.len() == 0 {
            true
        } else if ur.len() == 0 {
            false
        } else {
            ur[ur.len() - 1].0 <= vr[vr.len() - 1].0
        };
        if ur.len() > 0 {
            proof {
                lemma_reverse_drop_last(ur@);
            }
        }
        if vr.len() > 0 {
            proof {
                lemma_reverse_drop_last(vr@);
            }
        }
        let ghost before = out@;
        if take_u {
            let (idx, val) = ur.pop().unwrap();
            out.push((idx, (Some(val), None)));
            assert(out@ + merge_changes(ur@.reverse(), vr@.reverse()) =~= before
                + merge_changes(us, vs));
        } else {
            let (idx, val) = vr.pop().unwrap();
            out.push((idx, (None, Some(val))));
            assert(out@ + merge_changes(ur@.reverse(), vr@.reverse()) =~= before
                + merge_changes(us, vs));
        }
    }
    assert(ur@.reverse() =~= Seq::<(usize, U)>::empty());
    assert(vr@.reverse() =~= Seq::<(usize, V)>::empty());
    assert(out@ + Seq::<(usize, (Option<U>, Option<V>))>::empty() =~= out@);
    out
}

// ---------------------------------------------------------------------------
// Flushing
// ---------------------------------------------------------------------------

/// One step of a flush.
#[derive(Clone, Copy, PartialEq, Eq, Structural, Debug)]
pub enum FlushAction {
    /// Draw the element indices `start..end` with the given geometry mode
    Draw { start: usize, end: usize, mode: GeometryMode },
    /// Apply the state changes at this position of the merged change list
    Apply(usize),
}

/// The steps of a flush from change `k` on, when the elements from `previous` on are not
/// drawn yet and `mode` is the current geometry mode: before each change the pending
/// elements are drawn, then the change is applied (a geometry mode change sets the mode),
/// and at the end the rest up to `end` is drawn.
pub open spec fn plan_from(
    indices: Seq<usize>,
    modes: Seq<Option<GeometryMode>>,
    k: int,
    previous: usize,
    mode: GeometryMode,
    end: usize,
) -> Seq<FlushAction>
    decreases indices.len() - k,
{
    if k < 0 || k >= indices.len() {
        if previous != end {
            seq![FlushAction::Draw { start: previous, end, mode }]
        } else {
            Seq::empty()
        }
    } else {
        let draw = if previous != indices[k] {
            seq![FlushAction::Draw { start: previous, end: indices[k], mode }]
        } else {
            Seq::empty()
        };
        let next_mode = match modes[k] {
            Some(m) => m,
            None => mode,
        };
        draw + seq![FlushAction::Apply(k as usize)] + plan_from(
            indices,
            modes,
            k + 1,
            indices[k],
            next_mode,
            end,
        )
    }
}

/// The steps of a flush of `end` element indices with the given merged changes: the
/// element index of each change and the geometry mode it sets, if any. Drawing starts at
/// index 0 in triangle mode.
pub open spec fn flush_plan_spec(
    indices: Seq<usize>,
    modes: Seq<Option<GeometryMode>>,
    end: usize,
) -> Seq<FlushAction> {
    plan_from(indices, modes, 0, 0, GeometryMode::Triangles, end)
}

/// Plan the draw calls and state changes of a flush.
pub fn flush_plan(indices: &Vec<usize>, modes: &Vec<Option<GeometryMode>>, end: usize) -> (plan:
    Vec<FlushAction>)
    requires
        indices@.len() == modes@.len(),
    ensures
        plan@ == flush_plan_spec(indices@, modes@, end),
{
    let mut plan: Vec<FlushAction> = Vec::new();
    let mut previous: usize = 0;
    let mut mode = GeometryMode::Triangles;
    let mut k: usize = 0;
    assert(plan@ + flush_plan_spec(indices@, modes@, end) =~= flush_plan_spec(indices@, modes@, end));
    while k < indices.len()
        invariant
            k <= indices@.len(),
            indices@.len() == modes@.len(),
            flush_plan_spec(indices@, modes@, end) == plan@ + plan_from(
                indices@,
                modes@,
                k as int,
                previous,
                mode,
                end,
            ),
        decreases indices@.len() - k,
    {
        let ghost before = plan@;
        let ghost prev_old = previous;
        let ghost old_mode = mode;
        let index = indices[k];
        if previous != index {
            plan.push(FlushAction::Draw { start: previous, end: index, mode });
        }
        plan.push(FlushAction::Apply(k));
        match modes[k] {
            Some(m) => {
                mode = m;
            },
            None => {},
        }
        previous = index;
        assert(plan@ + plan_from(indices@, modes@, k + 1, previous, mode, end) =~= before
            + plan_from(indices@, modes@, k as int, prev_old, old_mode, end));
        k = k + 1;
    }
    if previous != end {
        plan.push(FlushAction::Draw { start: previous, end, mode });
    }
    assert(plan@ =~= plan@ + Seq::<FlushAction>::empty());
    plan
}

// ---------------------------------------------------------------------------
// Laws
// ---------------------------------------------------------------------------

/// The changes of the left list in a merged list, in order.
pub open spec fn left_changes<U, V>(m: Seq<(usize, (Option<U>, Option<V>))>) -> Seq<(usize, U)>
    decreases m.len(),
{
    if m.len() == 0 {
        Seq::empty()
    } else {
        let rest = left_changes(m.drop_first());
        match m[0].1.0 {
            Some(x) => seq![(m[0].0, x)] + rest,
            None => rest,
        }
    }
}

/// The changes of the right list in a merged list, in order.
pub open spec fn right_changes<U, V>(m: Seq<(usize, (Option<U>, Option<V>))>) -> Seq<(usize, V)>
    decreases m.len(),
{
    if m.len() == 0 {
        Seq::empty()
    } else {
        let rest = right_changes(m.drop_first());
        match m[0].1.1 {
            Some(x) => seq![(m[0].0, x)] + rest,
            None => rest,
        }
    }
}

/// The element indices of a list never decrease.
pub open spec fn indices_sorted<T>(s: Seq<(usize, T)>) -> bool {
    forall|i: int, j: int| 0 <= i < j < s.len() ==> #[trigger] s[i].0 <= #[trigger] s[j].0
}

/// Merging loses no change and invents none: the merged list is as long as both lists
/// together, its left changes are exactly `u` and its right changes exactly `v`, each in
/// its own order, and every entry carries exactly one change.
pub proof fn lemma_merge_keeps_changes<U, V>(u: Seq<(usize, U)>, v: Seq<(usize, V)>)
    ensures
        merge_changes(u, v).len() == u.len() + v.len(),
        left_changes(merge_changes(u, v)) == u,
        right_changes(merge_changes(u, v)) == v,
        forall|i: int|
            0 <= i < merge_changes(u, v).len() ==> (#[trigger] merge_changes(u, v)[i].1.0 is Some)
                != (merge_changes(u, v)[i].1.1 is Some),
    decreases u.len() + v.len(),
{
    let m = merge_changes(u, v);
    if u.len() == 0 && v.len() == 0 {
        assert(u =~= Seq::<(usize, U)>::empty());
        assert(v =~= Seq::<(usize, V)>::empty());
    } else if v.len() == 0 || (u.len() > 0 && u[0].0 <= v[0].0) {
        lemma_merge_keeps_changes(u.drop_first(), v);
        let rest = merge_changes(u.drop_first(), v);
        assert(m.drop_first() =~= rest);
        assert(seq![(u[0].0, u[0].1)] + u.drop_first() =~= u);
        assert forall|i: int| 0 <= i < m.len() implies (#[trigger] m[i].1.0 is Some) != (m[i].1.1 is Some) by {
            if i > 0 {
                assert(m[i] == rest[i - 1]);
            }
        }
    } else {
        lemma_merge_keeps_changes(u, v.drop_first());
        let rest = merge_changes(u, v.drop_first());
        assert(m.drop_first() =~= rest);
        assert(seq![(v[0].0, v[0].1)] + v.drop_first() =~= v);
        assert forall|i: int| 0 <= i < m.len() implies (#[trigger] m[i].1.0 is Some) != (m[i].1.1 is Some) by {
            if i > 0 {
                assert(m[i] == rest[i - 1]);
            }
        }
    }
}

proof fn lemma_merge_lower_bound<U, V>(u: Seq<(usize, U)>, v: Seq<(usize, V)>, b: usize)
    requires
        forall|i: int| 0 <= i < u.len() ==> b <= #[trigger] u[i].0,
        forall|i: int| 0 <= i < v.len() ==> b <= #[trigger] v[i].0,
    ensures
        forall|i: int| 0 <= i < merge_changes(u, v).len() ==> b <= #[trigger] merge_changes(u, v)[i].0,
    decreases u.len() + v.len(),
{
    let m = merge_changes(u, v);
    if u.len() == 0 && v.len() == 0 {
    } else if v.len() == 0 || (u.len() > 0 && u[0].0 <= v[0].0) {
        lemma_merge_lower_bound(u.drop_first(), v, b);
        assert forall|i: int| 0 <= i < m.len() implies b <= #[trigger] m[i].0 by {
            if i > 0 {
                assert(m[i] == merge_changes(u.drop_first(), v)[i - 1]);
            }
        }
    } else {
        lemma_merge_lower_bound(u, v.drop_first(), b);
        assert forall|i: int| 0 <= i < m.len() implies b <= #[trigger] m[i].0 by {
            if i > 0 {
                assert(m[i] == merge_changes(u, v.drop_first())[i - 1]);
            }
        }
    }
}

/// Merging two change lists whose element indices never decrease gives a list whose
/// element indices never decrease.
pub proof fn lemma_merge_sorted<U, V>(u: Seq<(usize, U)>, v: Seq<(usize, V)>)
    requires
        indices_sorted(u),
        indices_sorted(v),
    ensures
        indices_sorted(merge_changes(u, v)),
    decreases u.len() + v.len(),
{
    let m = merge_changes(u, v);
    if u.len() == 0 && v.len() == 0 {
    } else if v.len() == 0 || (u.len() > 0 && u[0].0 <= v[0].0) {
        let u2 = u.drop_first();
        assert(indices_sorted(u2)) by {
            assert forall|i: int, j: int| 0 <= i < j < u2.len() implies #[trigger] u2[i].0 <= #[trigger] u2[j].0 by {
                assert(u2[i] == u[i + 1] && u2[j] == u[j + 1]);
            }
        }
        lemma_merge_sorted(u2, v);
        assert forall|i: int| 0 <= i < u2.len() implies u[0].0 <= #[trigger] u2[i].0 by {
            assert(u2[i] == u[i + 1]);
        }
        assert forall|i: int| 0 <= i < v.len() implies u[0].0 <= #[trigger] v[i].0 by {
            if i > 0 {
                assert(v[0].0 <= v[i].0);
            }
        }
        lemma_merge_lower_bound(u2, v, u[0].0);
        let rest = merge_changes(u2, v);
        assert forall|i: int, j: int| 0 <= i < j < m.len() implies #[trigger] m[i].0 <= #[trigger] m[j].0 by {
            assert(m[j] == rest[j - 1]);
            if i > 0 {
                assert(m[i] == rest[i - 1]);
            }
        }
    } else {
        let v2 = v.drop_first();
        assert(indices_sorted(v2)) by {
            assert forall|i: int, j: int| 0 <= i < j < v2.len() implies #[trigger] v2[i].0 <= #[trigger] v2[j].0 by {
                assert(v2[i] == v[i + 1] && v2[j] == v[j + 1]);
            }
        }
        lemma_merge_sorted(u, v2);
        assert forall|i: int| 0 <= i < v2.len() implies v[0].0 <= #[trigger] v2[i].0 by {
            assert(v2[i] == v[i + 1]);
        }
        assert forall|i: int| 0 <= i < u.len() implies v[0].0 <= #[trigger] u[i].0 by {
            if i > 0 {
                assert(u[0].0 <= u[i].0);
            }
        }
        lemma_merge_lower_bound(u, v2, v[0].0);
        let rest = merge_changes(u, v2);
        assert forall|i: int, j: int| 0 <= i < j < m.len() implies #[trigger] m[i].0 <= #[trigger] m[j].0 by {
            assert(m[j] == rest[j - 1]);
            if i > 0 {
                assert(m[i] == rest[i - 1]);
            }
        }
    }
}

/// The draw steps of a plan, from `from`, form one unbroken series of non-empty ranges
/// that ends at `end`.
pub open spec fn draws_cover(actions: Seq<FlushAction>, from: usize, end: usize) -> bool
    decreases actions.len(),
{
    if actions.len() == 0 {
        from == end
    } else {
        match actions[0] {
            FlushAction::Draw { start, end: e, mode } => start == from && start < e && draws_cover(
                actions.drop_first(),
                e,
                end,
            ),
            FlushAction::Apply(_) => draws_cover(actions.drop_first(), from, end),
        }
    }
}

proof fn lemma_draws_cover_append(a: Seq<FlushAction>, b: Seq<FlushAction>, from: usize, mid: usize, end: usize)
    requires
        draws_cover(a, from, mid),
        draws_cover(b, mid, end),
    ensures
        draws_cover(a + b, from, end),
    decreases a.len(),
{
    if a.len() == 0 {
        assert(a + b =~= b);
    } else {
        assert((a + b).drop_first() =~= a.drop_first() + b);
        match a[0] {
            FlushAction::Draw { start, end: e, mode } => {
                lemma_draws_cover_append(a.drop_first(), b, e, mid, end);
            },
            FlushAction::Apply(_) => {
                lemma_draws_cover_append(a.drop_first(), b, from, mid, end);
            },
        }
    }
}

proof fn lemma_plan_from_covers(
    indices: Seq<usize>,
    modes: Seq<Option<GeometryMode>>,
    k: int,
    previous: usize,
    mode: GeometryMode,
    end: usize,
)
    requires
        0 <= k <= indices.len(),
        modes.len() == indices.len(),
        forall|i: int, j: int| 0 <= i < j < indices.len() ==> #[trigger] indices[i] <= #[trigger] indices[j],
        forall|i: int| 0 <= i < indices.len() ==> #[trigger] indices[i] <= end,
        previous <= end,
        k < indices.len() ==> previous <= indices[k],
    ensures
        draws_cover(plan_from(indices, modes, k, previous, mode, end), previous, end),
    decreases indices.len() - k,
{
    let p = plan_from(indices, modes, k, previous, mode, end);
    reveal_with_fuel(draws_cover, 2);
    if k >= indices.len() {
        if previous != end {
            let d = seq![FlushAction::Draw { start: previous, end, mode }];
            assert(d.drop_first() =~= Seq::<FlushAction>::empty());
        }
    } else {
        let next_mode = match modes[k] {
            Some(m) => m,
            None => mode,
        };
        if k + 1 < indices.len() {
            assert(indices[k] <= indices[k + 1]);
        }
        lemma_plan_from_covers(indices, modes, k + 1, indices[k], next_mode, end);
        let rest = plan_from(indices, modes, k + 1, indices[k], next_mode, end);
        let apply = seq![FlushAction::Apply(k as usize)] + rest;
        assert(apply.drop_first() =~= rest);
        if previous != indices[k] {
            let d = seq![FlushAction::Draw { start: previous, end: indices[k], mode }];
            assert(d.drop_first() =~= Seq::<FlushAction>::empty());
            lemma_draws_cover_append(d, apply, previous, indices[k], end);
            assert(p =~= d + apply);
        } else {
            assert(p =~= Seq::<FlushAction>::empty() + apply);
            assert(p =~= apply);
        }
    }
}

/// When the change indices never decrease and none is past the end, a flush draws every
/// element index from 0 to `end` exactly once, in order, in non-empty ranges.
pub proof fn lemma_flush_draws_everything_once(
    indices: Seq<usize>,
    modes: Seq<Option<GeometryMode>>,
    end: usize,
)
    requires
        modes.len() == indices.len(),
        forall|i: int, j: int| 0 <= i < j < indices.len() ==> #[trigger] indices[i] <= #[trigger] indices[j],
        forall|i: int| 0 <= i < indices.len() ==> #[trigger] indices[i] <= end,
    ensures
        draws_cover(flush_plan_spec(indices, modes, end), 0, end),
{
    lemma_plan_from_covers(indices, modes, 0, 0, GeometryMode::Triangles, end);
}

/// The geometry mode in force for drawing from element index `s`: the mode of the last of
/// the first `n` changes that is at or before `s` and sets a mode, or triangles when
/// there is none.
pub open spec fn mode_in_force(
    indices: Seq<usize>,
    modes: Seq<Option<GeometryMode>>,
    n: int,
    s: usize,
) -> GeometryMode
    decreases n,
{
    if n <= 0 {
        GeometryMode::Triangles
    } else if indices[n - 1] <= s && modes[n - 1] is Some {
        modes[n - 1].unwrap()
    } else {
        mode_in_force(indices, modes, n - 1, s)
    }
}

proof fn lemma_mode_later_changes_ignored(
    indices: Seq<usize>,
    modes: Seq<Option<GeometryMode>>,
    k: int,
    n: int,
    s: usize,
)
    requires
        0 <= k <= n,
        forall|j: int| k <= j < n ==> #[trigger] indices[j] > s,
    ensures
        mode_in_force(indices, modes, n, s) == mode_in_force(indices, modes, k, s),
    decreases n - k,
{
    if n > k {
        lemma_mode_later_changes_ignored(indices, modes, k, n - 1, s);
    }
}

proof fn lemma_mode_same_prefix(
    indices: Seq<usize>,
    modes: Seq<Option<GeometryMode>>,
    k: int,
    s1: usize,
    s2: usize,
)
    requires
        forall|j: int| 0 <= j < k ==> #[trigger] indices[j] <= s1 && indices[j] <= s2,
    ensures
        mode_in_force(indices, modes, k, s1) == mode_in_force(indices, modes, k, s2),
    decreases k,
{
    if k > 0 {
        lemma_mode_same_prefix(indices, modes, k - 1, s1, s2);
    }
}

proof fn lemma_plan_from_modes(
    indices: Seq<usize>,
    modes: Seq<Option<GeometryMode>>,
    k: int,
    previous: usize,
    mode: GeometryMode,
    end: usize,
)
    requires
        0 <= k <= indices.len(),
        modes.len() == indices.len(),
        forall|i: int, j: int| 0 <= i < j < indices.len() ==> #[trigger] indices[i] <= #[trigger] indices[j],
        forall|j: int| 0 <= j < k ==> #[trigger] indices[j] <= previous,
        k < indices.len() ==> previous <= indices[k],
        mode == mode_in_force(indices, modes, k, previous),
    ensures
        forall|t: int|
            0 <= t < plan_from(indices, modes, k, previous, mode, end).len() ==> match #[trigger] plan_from(
                indices,
                modes,
                k,
                previous,
                mode,
                end,
            )[t] {
                FlushAction::Draw { start, end: e, mode: m } => m == mode_in_force(
                    indices,
                    modes,
                    indices.len() as int,
                    start,
                ),
                FlushAction::Apply(_) => true,
            },
    decreases indices.len() - k,
{
    let n = indices.len() as int;
    let p = plan_from(indices, modes, k, previous, mode, end);
    if k >= n {
        assert(mode_in_force(indices, modes, n, previous) == mode);
    } else {
        let next_mode = match modes[k] {
            Some(m) => m,
            None => mode,
        };
        assert forall|j: int| 0 <= j < k + 1 implies #[trigger] indices[j] <= indices[k] by {
            if j < k {
                assert(indices[j] <= indices[k]);
            }
        }
        lemma_mode_same_prefix(indices, modes, k, previous, indices[k]);
        assert(next_mode == mode_in_force(indices, modes, k + 1, indices[k]));
        if k + 1 < n {
            assert(indices[k] <= indices[k + 1]);
        }
        lemma_plan_from_modes(indices, modes, k + 1, indices[k], next_mode, end);
        let rest = plan_from(indices, modes, k + 1, indices[k], next_mode, end);
        let apply = seq![FlushAction::Apply(k as usize)] + rest;
        if previous != indices[k] {
            assert forall|j: int| k <= j < n implies #[trigger] indices[j] > previous by {
                if j > k {
                    assert(indices[k] <= indices[j]);
                }
            }
            lemma_mode_later_changes_ignored(indices, modes, k, n, previous);
            let d = seq![FlushAction::Draw { start: previous, end: indices[k], mode }];
            assert(p =~= d + apply);
            assert forall|t: int| 0 <= t < p.len() implies match #[trigger] p[t] {
                FlushAction::Draw { start, end: e, mode: m } => m == mode_in_force(
                    indices,
                    modes,
                    n,
                    start,
                ),
                FlushAction::Apply(_) => true,
            } by {
                if t >= 2 {
                    assert(p[t] == rest[t - 2]);
                }
            }
        } else {
            assert(p =~= apply);
            assert forall|t: int| 0 <= t < p.len() implies match #[trigger] p[t] {
                FlushAction::Draw { start, end: e, mode: m } => m == mode_in_force(
                    indices,
                    modes,
                    n,
                    start,
                ),
                FlushAction::Apply(_) => true,
            } by {
                if t >= 1 {
                    assert(p[t] == rest[t - 1]);
                }
            }
        }
    }
}

/// Every range a flush draws is drawn in the geometry mode set by the last change at or
/// before the range's start (triangles when no change sets one): a change takes effect for
/// all drawing from its element index on, including a change at index 0.
pub proof fn lemma_flush_draws_in_current_mode(
    indices: Seq<usize>,
    modes: Seq<Option<GeometryMode>>,
    end: usize,
    t: int,
)
    requires
        modes.len() == indices.len(),
        forall|i: int, j: int| 0 <= i < j < indices.len() ==> #[trigger] indices[i] <= #[trigger] indices[j],
        0 <= t < flush_plan_spec(indices, modes, end).len(),
    ensures
        match flush_plan_spec(indices, modes, end)[t] {
            FlushAction::Draw { start, end: e, mode: m } => m == mode_in_force(
                indices,
                modes,
                indices.len() as int,
                start,
            ),
            FlushAction::Apply(_) => true,
        },
{
    lemma_plan_from_modes(indices, modes, 0, 0, GeometryMode::Triangles, end);
}

/// Two steps of a plan, the first before the second, are in an order that respects the
/// change indices: a change applied before a draw lies at or before the draw's start, and
/// a draw before a change ends at or before the change's index.
pub open spec fn steps_in_order(a: FlushAction, b: FlushAction, indices: Seq<usize>) -> bool {
    match (a, b) {
        (FlushAction::Apply(j), FlushAction::Draw { start, end: _, mode: _ }) => indices[j as int]
            <= start,
        (FlushAction::Draw { start: _, end: e, mode: _ }, FlushAction::Apply(j)) => e
            <= indices[j as int],
        _ => true,
    }
}

/// The changes a plan applies, in the order it applies them.
pub open spec fn applied_changes(p: Seq<FlushAction>) -> Seq<usize>
    decreases p.len(),
{
    if p.len() == 0 {
        Seq::empty()
    } else {
        let rest = applied_changes(p.drop_first());
        match p[0] {
            FlushAction::Apply(k) => seq![k] + rest,
            _ => rest,
        }
    }
}

proof fn lemma_applied_changes_append(a: Seq<FlushAction>, b: Seq<FlushAction>)
    ensures
        applied_changes(a + b) == applied_changes(a) + applied_changes(b),
    decreases a.len(),
{
    if a.len() == 0 {
        assert(a + b =~= b);
    } else {
        assert((a + b).drop_first() =~= a.drop_first() + b);
        lemma_applied_changes_append(a.drop_first(), b);
    }
}

#[verifier::rlimit(80)]
#[verifier::spinoff_prover]
proof fn lemma_plan_from_order(
    indices: Seq<usize>,
    modes: Seq<Option<GeometryMode>>,
    k: int,
    previous: usize,
    mode: GeometryMode,
    end: usize,
)
    requires
        0 <= k <= indices.len(),
        indices.len() <= usize::MAX,
        modes.len() == indices.len(),
        forall|i: int, j: int| 0 <= i < j < indices.len() ==> #[trigger] indices[i] <= #[trigger] indices[j],
        k < indices.len() ==> previous <= indices[k],
    ensures
        ({
            let p = plan_from(indices, modes, k, previous, mode, end);
            &&& forall|t: int|
                0 <= t < p.len() ==> match #[trigger] p[t] {
                    FlushAction::Draw { start, end: e, mode: _ } => previous <= start && (e == end
                        || exists|j: int| k <= j < indices.len() && indices[j] == e),
                    FlushAction::Apply(j) => k <= j < indices.len(),
                }
            &&& forall|t1: int, t2: int|
                0 <= t1 < t2 < p.len() ==> steps_in_order(#[trigger] p[t1], #[trigger] p[t2], indices)
            &&& applied_changes(p) == Seq::new((indices.len() - k) as nat, |j: int| (k + j) as usize)
        }),
    decreases indices.len() - k,
{
    let n = indices.len() as int;
    let p = plan_from(indices, modes, k, previous, mode, end);
    if k >= n {
        if previous != end {
            assert(applied_changes(p.drop_first()) == Seq::<usize>::empty());
        }
        assert(applied_changes(p) =~= Seq::new((n - k) as nat, |j: int| (k + j) as usize));
    } else {
        let next_mode = match modes[k] {
            Some(m) => m,
            None => mode,
        };
        if k + 1 < n {
            assert(indices[k] <= indices[k + 1]);
        }
        lemma_plan_from_order(indices, modes, k + 1, indices[k], next_mode, end);
        let rest = plan_from(indices, modes, k + 1, indices[k], next_mode, end);
        let ap = seq![FlushAction::Apply(k as usize)];
        let apply = ap + rest;
        let d = if previous != indices[k] {
            seq![FlushAction::Draw { start: previous, end: indices[k], mode }]
        } else {
            Seq::empty()
        };
        assert(p =~= d + apply);
        let off = d.len() as int;
        assert forall|t: int| 0 <= t < p.len() implies match #[trigger] p[t] {
            FlushAction::Draw { start, end: e, mode: _ } => previous <= start && (e == end
                || exists|j: int| k <= j < indices.len() && indices[j] == e),
            FlushAction::Apply(j) => k <= j < indices.len(),
        } by {
            if t > off {
                assert(p[t] == rest[t - off - 1]);
                match rest[t - off - 1] {
                    FlushAction::Draw { start, end: e, mode: _ } => {
                        if e != end {
                            let j = choose|j: int| k + 1 <= j < indices.len() && indices[j] == e;
                            assert(k <= j < indices.len() && indices[j] == e);
                        }
                    },
                    _ => {},
                }
            } else if t < off {
                assert(p[t] == FlushAction::Draw { start: previous, end: indices[k], mode });
            }
        }
        assert forall|t1: int, t2: int| 0 <= t1 < t2 < p.len() implies steps_in_order(
            #[trigger] p[t1],
            #[trigger] p[t2],
            indices,
        ) by {
            if t2 > off {
                assert(p[t2] == rest[t2 - off - 1]);
                if t1 > off {
                    assert(p[t1] == rest[t1 - off - 1]);
                } else if t1 < off {
                    assert(p[t1] == FlushAction::Draw { start: previous, end: indices[k], mode });
                    match p[t2] {
                        FlushAction::Apply(j) => {
                            if (j as int) > k {
                                assert(indices[k] <= indices[j as int]);
                            }
                        },
                        _ => {},
                    }
                }
            }
        }
        lemma_applied_changes_append(d, apply);
        lemma_applied_changes_append(ap, rest);
        assert(applied_changes(d) == Seq::<usize>::empty()) by {
            reveal_with_fuel(applied_changes, 2);
            if d.len() > 0 {
                assert(d.drop_first() =~= Seq::<FlushAction>::empty());
            }
        }
        assert(applied_changes(ap) == seq![k as usize]) by {
            reveal_with_fuel(applied_changes, 2);
            assert(ap.drop_first() =~= Seq::<FlushAction>::empty());
        }
        assert(applied_changes(p) == seq![k as usize] + applied_changes(rest)) by {
            assert(Seq::<usize>::empty() + (seq![k as usize] + applied_changes(rest)) =~= seq![
                k as usize,
            ] + applied_changes(rest));
        }
        assert(applied_changes(p) =~= Seq::new((n - k) as nat, |j: int| (k + j) as usize));
    }
}

/// A flush applies every change once, in list order, and interleaves the changes with
/// the draws by element index: a change is applied after every range that ends at or
/// before its index and before every range that starts at or after it, and a range ends
/// only at the index of a change or at the end.
pub proof fn lemma_flush_applies_changes_in_place(
    indices: Seq<usize>,
    modes: Seq<Option<GeometryMode>>,
    end: usize,
)
    requires
        indices.len() <= usize::MAX,
        modes.len() == indices.len(),
        forall|i: int, j: int| 0 <= i < j < indices.len() ==> #[trigger] indices[i] <= #[trigger] indices[j],
    ensures
        applied_changes(flush_plan_spec(indices, modes, end)) == Seq::new(
            indices.len(),
            |j: int| j as usize,
        ),
        forall|t: int|
            0 <= t < flush_plan_spec(indices, modes, end).len() ==> match #[trigger] flush_plan_spec(
                indices,
                modes,
                end,
            )[t] {
                FlushAction::Draw { start: _, end: e, mode: _ } => e == end || exists|j: int|
                    0 <= j < indices.len() && indices[j] == e,
                FlushAction::Apply(_) => true,
            },
        forall|t1: int, t2: int|
            0 <= t1 < t2 < flush_plan_spec(indices, modes, end).len() ==> steps_in_order(
                #[trigger] flush_plan_spec(indices, modes, end)[t1],
                #[trigger] flush_plan_spec(indices, modes, end)[t2],
                indices,
            ),
{
    lemma_plan_from_order(indices, modes, 0, 0, GeometryMode::Triangles, end);
    assert(Seq::new((indices.len() - 0) as nat, |j: int| (0 + j) as usize) =~= Seq::new(
        indices.len(),
        |j: int| j as usize,
    ));
}

/// Recording elements keeps a change list in element-index order: when every recorded
/// change is at or before the index where the new elements start, the list after
/// recording them is still in order, and no change lies past the end of the new indices.
pub proof fn lemma_recorded_changes_sorted(
    changes: Seq<(usize, GeometryMode)>,
    start: int,
    es: Seq<Element>,
)
    requires
        indices_sorted(changes),
        forall|i: int| 0 <= i < changes.len() ==> #[trigger] changes[i].0 <= start,
        0 <= start,
        start + 3 * es.len() <= usize::MAX,
    ensures
        indices_sorted(mode_changes_after(changes, start, es)),
        forall|i: int|
            0 <= i < mode_changes_after(changes, start, es).len() ==> #[trigger] mode_changes_after(
                changes,
                start,
                es,
            )[i].0 <= start + 3 * es.len(),
    decreases es.len(),
{
    if es.len() > 0 {
        let next = with_change(changes, start as usize, element_mode(es[0]));
        let step = element_indices(es[0], 0).len();
        assert(step <= 3);
        assert forall|i: int, j: int| 0 <= i < j < next.len() implies #[trigger] next[i].0
            <= #[trigger] next[j].0 by {
            if j == changes.len() {
                assert(next[i] == changes[i]);
            } else {
                assert(next[i] == changes[i] && next[j] == changes[j]);
            }
        }
        assert forall|i: int| 0 <= i < next.len() implies #[trigger] next[i].0 <= start + step by {
            if i < changes.len() {
                assert(next[i] == changes[i]);
            }
        }
        lemma_recorded_changes_sorted(next, start + step, es.drop_first());
    }
}

/// The number of floats that make up one vertex in the vertex buffer (colour, position,
/// texture coordinates).
pub const VERTEX_SIZE: usize = 8;

/// Every element index names a vertex of a buffer of `vertex_floats` floats.
pub open spec fn indices_in_bounds_spec(indices: Seq<u32>, vertex_floats: usize) -> bool {
    forall|k: int|
        0 <= k < indices.len() ==> #[trigger] indices[k] < ((vertex_floats / VERTEX_SIZE) as u32)
}

/// Check, before a flush, that every element index names a vertex of a buffer of
/// `vertex_floats` floats (the vertex count taken as a `u32`).
pub fn indices_in_bounds(indices: &Vec<u32>, vertex_floats: usize) -> (ok: bool)
    ensures
        ok == indices_in_bounds_spec(indices@, vertex_floats),
{
    let max_index: u32 = (vertex_floats / VERTEX_SIZE) as u32;
    let mut k: usize = 0;
    while k < indices.len()
        invariant
            k <= indices@.len(),
            max_index == ((vertex_floats / VERTEX_SIZE) as u32),
            forall|j: int| 0 <= j < k ==> #[trigger] indices@[j] < max_index,
        decreases indices@.len() - k,
    {
        if indices[k] >= max_index {
            return false;
        }
        k = k + 1;
    }
    true
}

/// Whether a flush must reallocate the GPU buffers rather than overwrite them: the
/// vertex or index data, at four bytes per value, reaches the size of its buffer.
pub fn buffers_need_resize(
    vertex_floats: usize,
    vertex_buffer_size: usize,
    index_count: usize,
    index_buffer_size: usize,
) -> (r: bool)
    requires
        4 * vertex_floats <= usize::MAX,
        4 * index_count <= usize::MAX,
    ensures
        r == (4 * vertex_floats >= vertex_buffer_size || 4 * index_count >= index_buffer_size),
{
    vertex_floats * 4 >= vertex_buffer_size || index_count * 4 >= index_buffer_size
}

} // verus!

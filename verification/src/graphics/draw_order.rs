//! The order in which queued draw calls of equal depth are issued: image draws grouped by
//! texture, after the untextured shapes.
use vstd::prelude::*;
use std::cmp::Ordering;
use vstd::std_specs::cmp::PartialEqSpec;
use vstd::std_specs::cmp::PartialOrdSpec;

verus! {

/// What a draw call draws, as far as ordering is concerned: an image (by the id of its
/// texture), a rectangle or a circle.
#[derive(Clone, Copy, Debug, Eq)]
pub enum PayloadKey {
    Image(u32),
    Rectangle,
    Circle,
}

/// Two payloads are interchangeable for batching: images of one texture, or two shapes
/// of the same kind.
pub open spec fn same_payload(a: PayloadKey, b: PayloadKey) -> bool {
    match (a, b) {
        (PayloadKey::Image(x), PayloadKey::Image(y)) => x == y,
        (PayloadKey::Rectangle, PayloadKey::Rectangle) => true,
        (PayloadKey::Circle, PayloadKey::Circle) => true,
        _ => false,
    }
}

/// The order of two payloads as a sign: images after shapes, images among themselves by
/// texture id, and all shapes level with each other.
pub open spec fn payload_sign(a: PayloadKey, b: PayloadKey) -> int {
    match (a, b) {
        (PayloadKey::Image(x), PayloadKey::Image(y)) => if x < y {
            -1
        } else if x == y {
            0
        } else {
            1
        },
        (PayloadKey::Image(_), _) => 1,
        (_, PayloadKey::Image(_)) => -1,
        _ => 0,
    }
}

/// The sign of an ordering.
pub open spec fn ordering_sign(o: Ordering) -> int {
    match o {
        Ordering::Less => -1,
        Ordering::Equal => 0,
        Ordering::Greater => 1,
    }
}

/// The ordering whose sign is `s`.
pub open spec fn ordering_of_sign(s: int) -> Ordering {
    if s < 0 {
        Ordering::Less
    } else if s == 0 {
        Ordering::Equal
    } else {
        Ordering::Greater
    }
}

impl PartialEq for PayloadKey {
    fn eq(&self, other: &PayloadKey) -> (r: bool) {
        match (self, other) {
            (PayloadKey::Image(x), PayloadKey::Image(y)) => *x == *y,
            (PayloadKey::Rectangle, PayloadKey::Rectangle) => true,
            (PayloadKey::Circle, PayloadKey::Circle) => true,
            _ => false,
        }
    }
}

impl vstd::std_specs::cmp::PartialEqSpecImpl for PayloadKey {
    open spec fn obeys_eq_spec() -> bool {
        true
    }

    open spec fn eq_spec(&self, other: &PayloadKey) -> bool {
        same_payload(*self, *other)
    }
}

impl PartialOrd for PayloadKey {
    fn partial_cmp(&self, other: &PayloadKey) -> (r: Option<Ordering>) {
        let o = match (self, other) {
            (PayloadKey::Image(x), PayloadKey::Image(y)) => {
                if *x < *y {
                    Ordering::Less
                } else if *x == *y {
                    Ordering::Equal
                } else {
                    Ordering::Greater
                }
            },
            (PayloadKey::Image(_), _) => Ordering::Greater,
            (_, PayloadKey::Image(_)) => Ordering::Less,
            _ => Ordering::Equal,
        };
        Some(o)
    }
}

impl vstd::std_specs::cmp::PartialOrdSpecImpl for PayloadKey {
    open spec fn obeys_partial_cmp_spec() -> bool {
        true
    }

    open spec fn partial_cmp_spec(&self, other: &PayloadKey) -> Option<Ordering> {
        Some(ordering_of_sign(payload_sign(*self, *other)))
    }
}

/// Comparing two payloads never fails, and swapping them reverses the result.
pub proof fn lemma_payload_order_antisymmetric(a: PayloadKey, b: PayloadKey)
    ensures
        a.partial_cmp_spec(&b) is Some,
        ordering_sign(a.partial_cmp_spec(&b).unwrap()) == -ordering_sign(
            b.partial_cmp_spec(&a).unwrap(),
        ),
{
}

/// "Not after" is transitive: the payload order is a total preorder.
pub proof fn lemma_payload_order_transitive(a: PayloadKey, b: PayloadKey, c: PayloadKey)
    requires
        ordering_sign(a.partial_cmp_spec(&b).unwrap()) <= 0,
        ordering_sign(b.partial_cmp_spec(&c).unwrap()) <= 0,
    ensures
        ordering_sign(a.partial_cmp_spec(&c).unwrap()) <= 0,
{
}

/// Equal payloads compare as `Equal`; the converse holds except between a rectangle and
/// a circle, which are unequal yet level in the order.
pub proof fn lemma_payload_eq_agrees_with_order(a: PayloadKey, b: PayloadKey)
    ensures
        a.eq_spec(&b) ==> a.partial_cmp_spec(&b) == Some(Ordering::Equal),
        (a is Image || b is Image || a == b) ==> (a.partial_cmp_spec(&b) == Some(
            Ordering::Equal,
        ) ==> a.eq_spec(&b)),
{
}

} // verus!

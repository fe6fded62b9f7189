//! The order in which a region lists its pixels: breadth first from the first pixel.
use crate::grid::adjacent8;
use crate::node::PixelCoords;
use vstd::prelude::*;

verus! {

/// Whether two different pixels touch, by an edge or by a corner.
pub open spec fn touch(p: PixelCoords, q: PixelCoords) -> bool {
    adjacent8(p.x as int, p.y as int, q.x as int, q.y as int)
}

/// The place of the pixel `q` among the pixels around `p`: from 0 for the pixel to the
/// left above, column by column and each column downwards, to 8 for the pixel to the right
/// below.
pub open spec fn direction(p: PixelCoords, q: PixelCoords) -> int {
    (q.x - p.x + 1) * 3 + (q.y - p.y + 1)
}

/// Whether the pixel at index `a` is the first in the list that the pixel at index `k`
/// touches, and stands before it: the pixel from which the other was found.
pub open spec fn first_touch(pixels: Seq<PixelCoords>, a: int, k: int) -> bool {
    &&& 0 <= a < k < pixels.len()
    &&& touch(pixels[a], pixels[k])
    &&& forall|b: int| 0 <= b < a ==> !#[trigger] touch(pixels[b], pixels[k])
}

/// Whether the pixel at index `k` was found from one of the pixels up to index `upto`.
pub open spec fn found_by(pixels: Seq<PixelCoords>, upto: int, k: int) -> bool {
    exists|a: int| 0 <= a <= upto && #[trigger] first_touch(pixels, a, k)
}

/// Whether a list holds its pixels in the order of a breadth-first walk from the first
/// pixel: each pixel but the first was found from the first pixel in the list that it
/// touches, and the pixels stand in the order in which they were found, by the pixel they
/// were found from and then by their place around that pixel.
pub open spec fn breadth_first(pixels: Seq<PixelCoords>) -> bool {
    &&& forall|k: int| 0 < k < pixels.len() ==> #[trigger] found_by(pixels, k, k)
    &&& forall|i: int, k: int, a: int, b: int|
        0 < i < k && #[trigger] first_touch(pixels, a, i) && #[trigger] first_touch(pixels, b, k)
            ==> a < b || (a == b && direction(pixels[a], pixels[i]) < direction(
            pixels[a],
            pixels[k],
        ))
}

/// What holds of the list while the walk stands at the pixel at index `upto` and has
/// looked at the places before `rank` around it: every pixel was found from a pixel up
/// to `upto`, and those found from `upto` itself lie at the places before `rank`.
pub open spec fn frontier(pixels: Seq<PixelCoords>, upto: int, rank: int) -> bool {
    &&& forall|k: int| 0 < k < pixels.len() ==> #[trigger] found_by(pixels, upto, k)
    &&& forall|k: int| #[trigger]
        first_touch(pixels, upto, k) ==> direction(pixels[upto], pixels[k]) < rank
}

/// A pixel is found from one pixel only.
pub proof fn lemma_first_touch_unique(pixels: Seq<PixelCoords>, a: int, b: int, k: int)
    requires
        first_touch(pixels, a, k),
        first_touch(pixels, b, k),
    ensures
        a == b,
{
    if a < b {
        assert(touch(pixels[a], pixels[k]));
    }
    if b < a {
        assert(touch(pixels[b], pixels[k]));
    }
}

/// From which pixel a pixel was found does not depend on what follows it in the list.
pub proof fn lemma_first_touch_prefix(
    pixels: Seq<PixelCoords>,
    longer: Seq<PixelCoords>,
    a: int,
    k: int,
)
    requires
        pixels.is_prefix_of(longer),
        k < pixels.len(),
    ensures
        first_touch(longer, a, k) == first_touch(pixels, a, k),
{
    if 0 <= a < k {
        assert(longer[a] == pixels[a]);
        assert(longer[k] == pixels[k]);
        if first_touch(pixels, a, k) {
            assert forall|b: int| 0 <= b < a implies !#[trigger] touch(longer[b], longer[k]) by {
                assert(longer[b] == pixels[b]);
                assert(!touch(pixels[b], pixels[k]));
            }
        }
        if first_touch(longer, a, k) {
            assert forall|b: int| 0 <= b < a implies !#[trigger] touch(pixels[b], pixels[k]) by {
                assert(longer[b] == pixels[b]);
                assert(!touch(longer[b], longer[k]));
            }
        }
    }
}

/// The walk takes a pixel: one that touches the pixel at `upto`, at the place `rank`
/// around it, and none of the pixels before `upto`.
pub proof fn lemma_take(pixels: Seq<PixelCoords>, q: PixelCoords, upto: int, rank: int)
    requires
        breadth_first(pixels),
        frontier(pixels, upto, rank),
        0 <= upto < pixels.len(),
        touch(pixels[upto], q),
        forall|b: int| 0 <= b < upto ==> !#[trigger] touch(pixels[b], q),
        direction(pixels[upto], q) == rank,
    ensures
        breadth_first(pixels.push(q)),
        frontier(pixels.push(q), upto, rank + 1),
{
    let longer = pixels.push(q);
    let n = pixels.len() as int;
    assert(pixels.is_prefix_of(longer));
    assert(longer[n] == q);
    assert(longer[upto] == pixels[upto]);
    assert(first_touch(longer, upto, n)) by {
        assert forall|b: int| 0 <= b < upto implies !#[trigger] touch(longer[b], longer[n]) by {
            assert(longer[b] == pixels[b]);
            assert(!touch(pixels[b], q));
        }
    }
    assert forall|k: int| 0 < k < longer.len() implies #[trigger] found_by(longer, upto, k) by {
        if k < n {
            assert(found_by(pixels, upto, k));
            let a = choose|a: int| 0 <= a <= upto && #[trigger] first_touch(pixels, a, k);
            lemma_first_touch_prefix(pixels, longer, a, k);
        }
    }
    assert forall|k: int| 0 < k < longer.len() implies #[trigger] found_by(longer, k, k) by {
        assert(found_by(longer, upto, k));
        let a = choose|a: int| 0 <= a <= upto && #[trigger] first_touch(longer, a, k);
        assert(0 <= a <= k);
    }
    assert forall|k: int| #[trigger] first_touch(longer, upto, k) implies direction(
        longer[upto],
        longer[k],
    ) < rank + 1 by {
        if k < n {
            lemma_first_touch_prefix(pixels, longer, upto, k);
            assert(longer[k] == pixels[k]);
        }
    }
    assert forall|i: int, k: int, a: int, b: int|
        0 < i < k && #[trigger] first_touch(longer, a, i) && #[trigger] first_touch(
            longer,
            b,
            k,
        ) implies a < b || (a == b && direction(longer[a], longer[i]) < direction(
        longer[a],
        longer[k],
    )) by {
        lemma_first_touch_prefix(pixels, longer, a, i);
        assert(longer[i] == pixels[i]);
        assert(longer[a] == pixels[a]);
        if k < n {
            lemma_first_touch_prefix(pixels, longer, b, k);
            assert(longer[k] == pixels[k]);
            assert(longer[b] == pixels[b]);
        } else {
            lemma_first_touch_unique(longer, b, upto, n);
            assert(found_by(pixels, upto, i));
            let a0 = choose|a0: int| 0 <= a0 <= upto && #[trigger] first_touch(pixels, a0, i);
            lemma_first_touch_unique(pixels, a, a0, i);
        }
    }
}

/// The walk has looked at all places around the pixel at `upto` and goes on to the next
/// pixel of the list.
pub proof fn lemma_advance(pixels: Seq<PixelCoords>, upto: int, rank: int)
    requires
        frontier(pixels, upto, rank),
    ensures
        frontier(pixels, upto + 1, 0),
{
    assert forall|k: int| 0 < k < pixels.len() implies #[trigger] found_by(pixels, upto + 1, k) by {
        assert(found_by(pixels, upto, k));
        let a = choose|a: int| 0 <= a <= upto && #[trigger] first_touch(pixels, a, k);
        assert(0 <= a <= upto + 1);
    }
    assert forall|k: int| #[trigger] first_touch(pixels, upto + 1, k) implies direction(
        pixels[upto + 1],
        pixels[k],
    ) < 0 by {
        assert(found_by(pixels, upto, k));
        let a = choose|a: int| 0 <= a <= upto && #[trigger] first_touch(pixels, a, k);
        lemma_first_touch_unique(pixels, a, upto + 1, k);
    }
}

/// Two breadth-first lists of the same pixels that begin with the same pixel agree in
/// their first `m` pixels.
proof fn lemma_same_start(p: Seq<PixelCoords>, q: Seq<PixelCoords>, m: int)
    requires
        p.no_duplicates(),
        q.no_duplicates(),
        forall|c: PixelCoords| p.contains(c) <==> q.contains(c),
        breadth_first(p),
        breadth_first(q),
        p.len() > 0,
        q.len() > 0,
        p[0] == q[0],
        1 <= m <= p.len(),
    ensures
        m <= q.len(),
        forall|j: int| 0 <= j < m ==> p[j] == q[j],
    decreases m,
{
    if m > 1 {
        let n = m - 1;
        lemma_same_start(p, q, n);
        // Where the pixel at index n of one list stands in the other.
        assert(q.contains(p[n]));
        let kq = choose|k: int| 0 <= k < q.len() && q[k] == p[n];
        if kq < n {
            assert(p[kq] == q[kq]);
            assert(false);
        }
        assert(n < q.len());
        assert(p.contains(q[n]));
        let kp = choose|k: int| 0 <= k < p.len() && p[k] == q[n];
        if kp < n {
            assert(p[kp] == q[kp]);
            assert(false);
        }
        if kp != n && kq != n {
            assert(found_by(p, n, n));
            let a = choose|a: int| 0 <= a <= n && #[trigger] first_touch(p, a, n);
            assert(found_by(q, n, n));
            let b = choose|b: int| 0 <= b <= n && #[trigger] first_touch(q, b, n);
            assert(p[a] == q[a]);
            assert(p[b] == q[b]);
            assert(first_touch(p, b, kp)) by {
                assert forall|c: int| 0 <= c < b implies !#[trigger] touch(p[c], p[kp]) by {
                    assert(p[c] == q[c]);
                    assert(!touch(q[c], q[n]));
                }
            }
            assert(first_touch(q, a, kq)) by {
                assert forall|c: int| 0 <= c < a implies !#[trigger] touch(q[c], q[kq]) by {
                    assert(p[c] == q[c]);
                    assert(!touch(p[c], p[n]));
                }
            }
            assert(false);
        }
    }
}

/// The pixels of a region can be listed breadth first from its first pixel in one way
/// only.
pub proof fn breadth_first_unique(p: Seq<PixelCoords>, q: Seq<PixelCoords>)
    requires
        p.no_duplicates(),
        q.no_duplicates(),
        forall|c: PixelCoords| p.contains(c) <==> q.contains(c),
        breadth_first(p),
        breadth_first(q),
        p.len() > 0,
        q.len() > 0,
        p[0] == q[0],
    ensures
        p == q,
{
    lemma_same_start(p, q, p.len() as int);
    lemma_same_start(q, p, q.len() as int);
    assert(p =~= q);
}

} // verus!

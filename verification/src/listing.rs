//! Lists of voxel positions in walk order: `x` runs fastest, then `y`, then `z`.

use vstd::prelude::*;

verus! {

/// A position of 32-bit coordinates as a point of the integers.
pub open spec fn point(pos: (i32, i32, i32)) -> (int, int, int) {
    (pos.0 as int, pos.1 as int, pos.2 as int)
}

/// Whether a walk along `x`, then `y`, then `z` passes `a` before `b`.
pub open spec fn lies_before(a: (int, int, int), b: (int, int, int)) -> bool {
    a.2 < b.2 || (a.2 == b.2 && (a.1 < b.1 || (a.1 == b.1 && a.0 < b.0)))
}

/// Whether a walk along `x`, then `y`, then `z` passes `a` before `b`.
pub open spec fn walks_before(a: (i32, i32, i32), b: (i32, i32, i32)) -> bool {
    lies_before(point(a), point(b))
}

/// The points of `region` that a walk has passed when it stands at `at`.
pub open spec fn walked(region: Set<(int, int, int)>, at: (int, int, int)) -> Set<(int, int, int)> {
    Set::new(|c: (int, int, int)| region.contains(c) && lies_before(c, at))
}

/// Whether `ps` lists the positions of `region`, each once, in walk order.
pub open spec fn lists_positions(region: Set<(int, int, int)>, ps: Seq<(i32, i32, i32)>) -> bool {
    &&& forall|i: int| 0 <= i < ps.len() ==> region.contains(point(#[trigger] ps[i]))
    &&& forall|i: int, j: int|
        0 <= i < j < ps.len() ==> walks_before(#[trigger] ps[i], #[trigger] ps[j])
    &&& forall|p: (i32, i32, i32)|
        region.contains(point(p)) ==> exists|i: int| 0 <= i < ps.len() && #[trigger] ps[i] == p
}

/// The positions of `region`, each once, in walk order. The value is
/// meaningful where such a list exists, as it does for a finite region.
pub open spec fn listing(region: Set<(int, int, int)>) -> Seq<(i32, i32, i32)> {
    choose|ps: Seq<(i32, i32, i32)>| lists_positions(region, ps)
}

/// A list of the walked part of a region, extended by the position where
/// the walk stands, lists the part walked one step on.
pub proof fn lemma_listing_push(
    done: Set<(int, int, int)>,
    ps: Seq<(i32, i32, i32)>,
    p: (i32, i32, i32),
)
    requires
        lists_positions(done, ps),
        forall|c: (int, int, int)| done.contains(c) ==> lies_before(c, point(p)),
    ensures
        lists_positions(done.insert(point(p)), ps.push(p)),
{
    let more = done.insert(point(p));
    let qs = ps.push(p);
    assert forall|i: int| 0 <= i < qs.len() implies more.contains(point(#[trigger] qs[i])) by {
        if i < ps.len() {
            assert(qs[i] == ps[i]);
        }
    }
    assert forall|i: int, j: int| 0 <= i < j < qs.len() implies walks_before(
        #[trigger] qs[i],
        #[trigger] qs[j],
    ) by {
        assert(qs[i] == ps[i]);
        if j < ps.len() {
            assert(qs[j] == ps[j]);
        } else {
            assert(done.contains(point(ps[i])));
        }
    }
    assert forall|q: (i32, i32, i32)| more.contains(point(q)) implies exists|i: int|
        0 <= i < qs.len() && #[trigger] qs[i] == q by {
        if q == p {
            assert(qs[ps.len() as int] == q);
        } else {
            assert(done.contains(point(q)));
            let i = choose|i: int| 0 <= i < ps.len() && #[trigger] ps[i] == q;
            assert(qs[i] == q);
        }
    }
}

/// A region has at most one list in walk order.
#[verifier::rlimit(50)]
pub proof fn lemma_listing_unique(
    region: Set<(int, int, int)>,
    a: Seq<(i32, i32, i32)>,
    b: Seq<(i32, i32, i32)>,
)
    requires
        lists_positions(region, a),
        lists_positions(region, b),
    ensures
        a == b,
    decreases a.len(),
{
    if a.len() == 0 {
        if b.len() > 0 {
            assert(region.contains(point(b[0])));
            let i = choose|i: int| 0 <= i < a.len() && #[trigger] a[i] == b[0];
        }
        assert(a =~= b);
    } else {
        let m = a.last();
        assert(region.contains(point(m)));
        let j = choose|j: int| 0 <= j < b.len() && #[trigger] b[j] == m;
        let n = b.last();
        assert(region.contains(point(n)));
        let i = choose|i: int| 0 <= i < a.len() && #[trigger] a[i] == n;
        if j < b.len() - 1 {
            assert(walks_before(b[j], b[b.len() - 1]));
            if i < a.len() - 1 {
                assert(walks_before(a[i], a[a.len() - 1]));
            }
            assert(false);
        }
        assert(n == m);
        let rest = region.remove(point(m));
        let a0 = a.drop_last();
        let b0 = b.drop_last();
        assert(lists_positions(rest, a0)) by {
            assert forall|k: int| 0 <= k < a0.len() implies rest.contains(
                point(#[trigger] a0[k]),
            ) by {
                assert(a0[k] == a[k]);
                assert(walks_before(a[k], a[a.len() - 1]));
            }
            assert forall|k: int, l: int| 0 <= k < l < a0.len() implies walks_before(
                #[trigger] a0[k],
                #[trigger] a0[l],
            ) by {
                assert(a0[k] == a[k] && a0[l] == a[l]);
            }
            assert forall|q: (i32, i32, i32)| rest.contains(point(q)) implies exists|k: int|
                0 <= k < a0.len() && #[trigger] a0[k] == q by {
                let k = choose|k: int| 0 <= k < a.len() && #[trigger] a[k] == q;
                assert(a0[k] == q);
            }
        }
        assert(lists_positions(rest, b0)) by {
            assert forall|k: int| 0 <= k < b0.len() implies rest.contains(
                point(#[trigger] b0[k]),
            ) by {
                assert(b0[k] == b[k]);
                assert(walks_before(b[k], b[b.len() - 1]));
            }
            assert forall|k: int, l: int| 0 <= k < l < b0.len() implies walks_before(
                #[trigger] b0[k],
                #[trigger] b0[l],
            ) by {
                assert(b0[k] == b[k] && b0[l] == b[l]);
            }
            assert forall|q: (i32, i32, i32)| rest.contains(point(q)) implies exists|k: int|
                0 <= k < b0.len() && #[trigger] b0[k] == q by {
                let k = choose|k: int| 0 <= k < b.len() && #[trigger] b[k] == q;
                assert(b0[k] == q);
            }
        }
        lemma_listing_unique(rest, a0, b0);
        assert(a =~= a0.push(m));
        assert(b =~= b0.push(n));
    }
}

/// A list of a region in walk order is the listing of the region.
pub proof fn lemma_listing_is(region: Set<(int, int, int)>, ps: Seq<(i32, i32, i32)>)
    requires
        lists_positions(region, ps),
    ensures
        listing(region) == ps,
{
    lemma_listing_unique(region, listing(region), ps);
}

} // verus!

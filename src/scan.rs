//! Nearest-hit scan over the primitives of a scene.
//!
//! Hit distances are handled here as order keys: the IEEE-754 bit pattern of a
//! non-negative `f32` distance, read as a `u32`. For non-negative floats the
//! order of the bit patterns is the order of the numbers, so comparing keys is
//! comparing distances exactly. Every distance that the scan sees lies above the
//! interval's positive lower bound.
//!
//! A primitive is tested through a callback `test(i, interval)` that answers
//! the nearest intersection of primitive `i` strictly inside `interval`, with
//! its distance key and a hit record. The scan keeps the lower bound fixed and
//! tightens the upper bound to the closest distance found so far, so later
//! primitives are only asked for strictly nearer hits.
use vstd::prelude::*;

verus! {

/// Open range `(min, max)` of admissible hit distances, as order keys.
#[derive(Clone, Copy, Debug, PartialEq, Eq, Structural)]
pub struct Interval {
    pub min: u32,
    pub max: u32,
}

/// The nearest hit found by a scan: which primitive, at what distance key,
/// and the record that the primitive's test produced.
pub struct Nearest<H> {
    pub index: usize,
    pub key: u32,
    pub hit: H,
}

/// What a primitive whose nearest intersection above the lower bound is
/// `nearest` answers when asked with upper bound `max`: that intersection if it
/// lies strictly below `max`, none otherwise.
pub open spec fn clip(nearest: Option<u32>, max: u32) -> Option<u32> {
    match nearest {
        Some(t) => if t < max { Some(t) } else { None },
        None => None,
    }
}

/// The distance key of an answer, without its record.
pub open spec fn answer_key<H>(a: Option<(u32, H)>) -> Option<u32> {
    match a {
        Some(p) => Some(p.0),
        None => None,
    }
}

/// Index and distance key of a scan result, without its record.
pub open spec fn nearest_key<H>(r: Option<Nearest<H>>) -> Option<(int, u32)> {
    match r {
        Some(n) => Some((n.index as int, n.key)),
        None => None,
    }
}

/// `test` behaves as a set of primitives whose nearest intersections above
/// `min` are `model(0)`, `model(1)`, ...: asked for primitive `i` with upper
/// bound `b`, it answers `clip(model(i), b)`.
pub open spec fn conforms<H, F: Fn(usize, Interval) -> Option<(u32, H)>>(
    test: F,
    model: spec_fn(int) -> Option<u32>,
    min: u32,
) -> bool {
    forall|i: usize, b: u32, a: Option<(u32, H)>|
        #[trigger] call_ensures(test, (i, Interval { min, max: b }), a) ==> answer_key(a) == clip(
            model(i as int),
            b,
        )
}

/// Upper bound in force after a partial scan whose result so far is `found`.
pub open spec fn bound_after(found: Option<(int, u32)>, max: u32) -> u32 {
    match found {
        Some(p) => p.1,
        None => max,
    }
}

/// Result of scanning the first `n` primitives of `model` with the shrinking
/// interval: primitive `n - 1` replaces the result so far exactly when it has
/// an intersection strictly below the current upper bound.
pub open spec fn scan_spec(model: spec_fn(int) -> Option<u32>, n: nat, max: u32) -> Option<(int, u32)>
    decreases n,
{
    if n == 0 {
        None
    } else {
        let prev = scan_spec(model, (n - 1) as nat, max);
        match clip(model(n - 1), bound_after(prev, max)) {
            Some(t) => Some(((n - 1) as int, t)),
            None => prev,
        }
    }
}

/// Scans primitives `0 .. count` for the nearest intersection strictly inside
/// `interval`. Each primitive is asked with the interval's lower bound and, as
/// upper bound, the closest distance found so far (the interval's upper bound
/// at first). For every model of the primitives that `test` follows, the result
/// is `scan_spec` of that model, which is the globally nearest intersection
/// (see `lemma_scan_finds_nearest`).
pub fn hit<H, F: Fn(usize, Interval) -> Option<(u32, H)>>(
    count: usize,
    interval: Interval,
    test: F,
) -> (r: Option<Nearest<H>>)
    requires
        forall|i: usize, b: u32|
            i < count ==> #[trigger] call_requires(test, (i, Interval { min: interval.min, max: b })),
    ensures
        forall|model: spec_fn(int) -> Option<u32>|
            #[trigger] conforms(test, model, interval.min) ==> nearest_key(r) == scan_spec(
                model,
                count as nat,
                interval.max,
            ),
        r matches Some(n) ==> n.index < count && exists|b: u32|
            call_ensures(test, (n.index, Interval { min: interval.min, max: b }), Some((n.key, n.hit))),
{
    let mut best: Option<Nearest<H>> = None;
    let mut closest: u32 = interval.max;
    let mut i: usize = 0;
    while i < count
        invariant
            i <= count,
            forall|j: usize, b: u32|
                j < count ==> #[trigger] call_requires(test, (j, Interval { min: interval.min, max: b })),
            closest == bound_after(nearest_key(best), interval.max),
            forall|model: spec_fn(int) -> Option<u32>|
                #[trigger] conforms(test, model, interval.min) ==> nearest_key(best) == scan_spec(
                    model,
                    i as nat,
                    interval.max,
                ),
            best matches Some(n) ==> n.index < i && exists|b: u32|
                call_ensures(test, (n.index, Interval { min: interval.min, max: b }), Some((n.key, n.hit))),
        decreases count - i,
    {
        let ghost prev = nearest_key(best);
        let ghost bound = closest;
        let answer = test(i, Interval { min: interval.min, max: closest });
        proof {
            assert forall|model: spec_fn(int) -> Option<u32>|
                #[trigger] conforms(test, model, interval.min) implies answer_key(answer) == clip(
                    model(i as int),
                    bound,
                ) && prev == scan_spec(model, i as nat, interval.max) by {
                assert(call_ensures(test, (i, Interval { min: interval.min, max: bound }), answer));
            }
        }
        match answer {
            Some((key, hit)) => {
                proof {
                    assert(call_ensures(
                        test,
                        (i, Interval { min: interval.min, max: bound }),
                        Some((key, hit)),
                    ));
                }
                closest = key;
                best = Some(Nearest { index: i, key, hit });
            },
            None => {},
        }
        i = i + 1;
    }
    best
}

/// Upper bound in force after the first `n` primitives of a scan.
pub open spec fn bound_at(model: spec_fn(int) -> Option<u32>, n: nat, max: u32) -> u32 {
    bound_after(scan_spec(model, n, max), max)
}

/// The upper bound of the scan never grows: after one more primitive it is at
/// most what it was, and it never exceeds the interval's own upper bound.
pub proof fn lemma_bound_never_grows(model: spec_fn(int) -> Option<u32>, n: nat, max: u32)
    ensures
        bound_at(model, n + 1, max) <= bound_at(model, n, max),
        bound_at(model, n, max) <= max,
    decreases n,
{
    if n > 0 {
        lemma_bound_never_grows(model, (n - 1) as nat, max);
    }
}

/// The scan finds the nearest intersection: the result is none exactly when no
/// primitive among the first `n` has an intersection below `max`; otherwise it
/// names such a primitive whose distance is at most that of every other one,
/// and no earlier primitive lies at that same distance.
pub proof fn lemma_scan_finds_nearest(model: spec_fn(int) -> Option<u32>, n: nat, max: u32)
    ensures
        scan_spec(model, n, max) is None <==> forall|j: int|
            0 <= j < n ==> #[trigger] clip(model(j), max) is None,
        scan_spec(model, n, max) matches Some(p) ==> {
            &&& 0 <= p.0 < n
            &&& clip(model(p.0), max) == Some(p.1)
            &&& forall|j: int|
                0 <= j < n ==> (#[trigger] clip(model(j), max) matches Some(u) ==> p.1 <= u)
            &&& forall|j: int| 0 <= j < p.0 ==> #[trigger] clip(model(j), max) != Some(p.1)
        },
    decreases n,
{
    if n > 0 {
        lemma_scan_finds_nearest(model, (n - 1) as nat, max);
        lemma_bound_never_grows(model, (n - 1) as nat, max);
        let prev = scan_spec(model, (n - 1) as nat, max);
        let b = bound_after(prev, max);
        let last = (n - 1) as int;
        match clip(model(last), b) {
            Some(t) => {
                assert(clip(model(last), max) == Some(t));
                assert forall|j: int| 0 <= j < n implies (#[trigger] clip(model(j), max) matches Some(
                    u,
                ) ==> t <= u) by {
                    if j < last {
                        if let Some(u) = clip(model(j), max) {
                            assert(prev is Some);
                        }
                    }
                }
                assert forall|j: int| 0 <= j < last implies #[trigger] clip(model(j), max) != Some(
                    t,
                ) by {
                    if clip(model(j), max) == Some(t) {
                        assert(prev is Some);
                    }
                }
            },
            None => {
                if prev is None {
                    assert(b == max);
                }
                if let Some(p) = prev {
                    assert forall|j: int| 0 <= j < n implies (#[trigger] clip(
                        model(j),
                        max,
                    ) matches Some(u) ==> p.1 <= u) by {
                        if j == last {
                            if let Some(u) = clip(model(j), max) {
                                assert(!(u < p.1));
                            }
                        }
                    }
                }
            },
        }
    }
}

/// The nearest distance does not depend on the order of the primitives:
/// scanning the primitives in any permuted order (`perm` with inverse `inv`)
/// finds an intersection exactly when the original order does, at the same
/// distance.
pub proof fn lemma_scan_order_independent(
    model: spec_fn(int) -> Option<u32>,
    perm: spec_fn(int) -> int,
    inv: spec_fn(int) -> int,
    n: nat,
    max: u32,
)
    requires
        forall|i: int| 0 <= i < n ==> 0 <= #[trigger] perm(i) < n && inv(perm(i)) == i,
        forall|i: int| 0 <= i < n ==> 0 <= #[trigger] inv(i) < n && perm(inv(i)) == i,
    ensures
        ({
            let permuted = |i: int| model(perm(i));
            match (scan_spec(model, n, max), scan_spec(permuted, n, max)) {
                (None, None) => true,
                (Some(a), Some(b)) => a.1 == b.1,
                _ => false,
            }
        }),
{
    let permuted = |i: int| model(perm(i));
    lemma_scan_finds_nearest(model, n, max);
    lemma_scan_finds_nearest(permuted, n, max);
    let r1 = scan_spec(model, n, max);
    let r2 = scan_spec(permuted, n, max);
    if let Some(a) = r1 {
        let k = inv(a.0);
        assert(permuted(k) == model(a.0));
        assert(clip(permuted(k), max) == Some(a.1));
        assert(r2 is Some);
        let b = r2->Some_0;
        assert(clip(model(perm(b.0)), max) == Some(b.1));
        assert(a.1 <= b.1);
        assert(b.1 <= a.1);
    }
    if let Some(b) = r2 {
        assert(clip(model(perm(b.0)), max) == Some(b.1));
        assert(r1 is Some);
    }
}

} // verus!

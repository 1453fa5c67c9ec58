//! The escape-time search.
//!
//! An orbit starts at a point `c` and is advanced by a step function. The
//! step is given `c` and the current point; it answers `None` when the
//! current point lies outside the bounded region, and otherwise the next
//! point of the orbit. The escape time of `c` is the number of the first
//! step that answers `None`, counted from one.

use vstd::prelude::*;

verus! {

/// `orbit` is a run of the iteration from `c`: it begins with `c`, and each
/// later point is one that `step` gave for the point before it.
pub open spec fn is_orbit<P, S: Fn(P, P) -> Option<P>>(step: &S, c: P, orbit: Seq<P>) -> bool {
    &&& orbit.len() >= 1
    &&& orbit[0] == c
    &&& forall|k: int|
        0 <= k < orbit.len() - 1 ==> step.ensures((c, #[trigger] orbit[k]), Some(orbit[k + 1]))
}

/// The orbit of `c` stays inside the region for its first `i - 1` points and
/// the step from point number `i` reports an escape.
pub open spec fn escapes_at<P, S: Fn(P, P) -> Option<P>>(step: &S, c: P, i: int) -> bool {
    exists|orbit: Seq<P>|
        #![trigger is_orbit(step, c, orbit)]
        orbit.len() == i && is_orbit(step, c, orbit) && step.ensures((c, orbit[i - 1]), None)
}

/// The orbit of `c` can be advanced `steps` times without an escape.
pub open spec fn survives<P, S: Fn(P, P) -> Option<P>>(step: &S, c: P, steps: int) -> bool {
    exists|orbit: Seq<P>|
        #![trigger is_orbit(step, c, orbit)]
        orbit.len() == steps + 1 && is_orbit(step, c, orbit)
}

/// What an escape-time search with the given limit may answer for `c`:
/// `Some(i)` with `1 <= i < limit` when the first escape is reported at step
/// `i`, and `None` when all of the `limit - 1` steps stayed inside.
pub open spec fn is_escape_time<P, S: Fn(P, P) -> Option<P>>(
    step: &S,
    c: P,
    limit: u32,
    time: Option<u32>,
) -> bool {
    match time {
        Some(i) => 1 <= i < limit && escapes_at(step, c, i as int),
        None => survives(step, c, if limit >= 1 { limit - 1 } else { 0 }),
    }
}

/// The step function answers at most one thing for each pair of arguments.
pub open spec fn step_is_function<P, S: Fn(P, P) -> Option<P>>(step: &S) -> bool {
    forall|c: P, z: P, a: Option<P>, b: Option<P>|
        #![trigger step.ensures((c, z), a), step.ensures((c, z), b)]
        step.ensures((c, z), a) && step.ensures((c, z), b) ==> a == b
}

/// Searches for the escape time of `c`.
///
/// The orbit starts at `c` itself. Steps are numbered from one, and at most
/// `limit - 1` of them are taken, so an answer `Some(i)` always has
/// `1 <= i < limit`; with a limit of zero or one no step is taken and the
/// answer is `None`.
pub fn escape_time<P: Copy, S: Fn(P, P) -> Option<P>>(
    c: P,
    limit: u32,
    step: &S,
) -> (time: Option<u32>)
    requires
        forall|z: P| step.requires((c, z)),
    ensures
        is_escape_time(step, c, limit, time),
{
    let mut z: P = c;
    let mut i: u32 = 1;
    let ghost mut orbit: Seq<P> = seq![c];
    while i < limit
        invariant
            1 <= i,
            i <= limit || limit == 0,
            forall|p: P| step.requires((c, p)),
            orbit.len() == i,
            is_orbit(step, c, orbit),
            orbit[i - 1] == z,
        decreases limit - i,
    {
        match step(c, z) {
            None => {
                return Some(i);
            },
            Some(next) => {
                proof {
                    let longer = orbit.push(next);
                    assert forall|k: int| 0 <= k < longer.len() - 1 implies step.ensures(
                        (c, #[trigger] longer[k]),
                        Some(longer[k + 1]),
                    ) by {
                        if k < orbit.len() - 1 {
                            assert(longer[k] == orbit[k]);
                            assert(longer[k + 1] == orbit[k + 1]);
                        }
                    }
                    orbit = longer;
                }
                z = next;
            },
        }
        i += 1;
    }
    None
}

/// Two orbits from the same point agree wherever both are defined, when the
/// step is a function.
pub proof fn lemma_orbits_agree<P, S: Fn(P, P) -> Option<P>>(
    step: &S,
    c: P,
    first: Seq<P>,
    second: Seq<P>,
    k: int,
)
    requires
        step_is_function(step),
        is_orbit(step, c, first),
        is_orbit(step, c, second),
        0 <= k < first.len(),
        k < second.len(),
    ensures
        first[k] == second[k],
    decreases k,
{
    if k > 0 {
        lemma_orbits_agree(step, c, first, second, k - 1);
        assert(step.ensures((c, first[k - 1]), Some(first[k])));
        assert(step.ensures((c, second[k - 1]), Some(second[k])));
        assert(Some(first[k]) == Some(second[k]));
    }
}

/// The escape time is determined by the point and the limit: when the step
/// is a function, any two answers that the search may give for the same
/// point and limit are equal.
pub proof fn lemma_escape_time_deterministic<P, S: Fn(P, P) -> Option<P>>(
    step: &S,
    c: P,
    limit: u32,
    first: Option<u32>,
    second: Option<u32>,
)
    requires
        step_is_function(step),
        is_escape_time(step, c, limit, first),
        is_escape_time(step, c, limit, second),
    ensures
        first == second,
{
    match (first, second) {
        (Some(i), Some(j)) => {
            let a = choose|orbit: Seq<P>|
                #![trigger is_orbit(step, c, orbit)]
                orbit.len() == i && is_orbit(step, c, orbit) && step.ensures(
                    (c, orbit[i - 1]),
                    None,
                );
            let b = choose|orbit: Seq<P>|
                #![trigger is_orbit(step, c, orbit)]
                orbit.len() == j && is_orbit(step, c, orbit) && step.ensures(
                    (c, orbit[j - 1]),
                    None,
                );
            if i < j {
                lemma_escape_bounds_orbits(step, c, a, b, i as int);
            } else if j < i {
                lemma_escape_bounds_orbits(step, c, b, a, j as int);
            }
        },
        (Some(i), None) => {
            let a = choose|orbit: Seq<P>|
                #![trigger is_orbit(step, c, orbit)]
                orbit.len() == i && is_orbit(step, c, orbit) && step.ensures(
                    (c, orbit[i - 1]),
                    None,
                );
            let b = choose|orbit: Seq<P>|
                #![trigger is_orbit(step, c, orbit)]
                orbit.len() == limit - 1 + 1 && is_orbit(step, c, orbit);
            lemma_escape_bounds_orbits(step, c, a, b, i as int);
        },
        (None, Some(j)) => {
            let a = choose|orbit: Seq<P>|
                #![trigger is_orbit(step, c, orbit)]
                orbit.len() == limit - 1 + 1 && is_orbit(step, c, orbit);
            let b = choose|orbit: Seq<P>|
                #![trigger is_orbit(step, c, orbit)]
                orbit.len() == j && is_orbit(step, c, orbit) && step.ensures(
                    (c, orbit[j - 1]),
                    None,
                );
            lemma_escape_bounds_orbits(step, c, b, a, j as int);
        },
        (None, None) => {},
    }
}

/// An escape found under one limit is found under every larger one, at the
/// same step.
pub proof fn lemma_escape_kept_by_larger_limit<P, S: Fn(P, P) -> Option<P>>(
    step: &S,
    c: P,
    smaller: u32,
    larger: u32,
    i: u32,
)
    requires
        smaller <= larger,
        is_escape_time(step, c, smaller, Some(i)),
    ensures
        is_escape_time(step, c, larger, Some(i)),
{
}

/// How the answers under two limits are related when the step is a function:
/// the answer under the smaller limit is the answer under the larger one,
/// unless that is a step which the smaller limit does not reach; then it is
/// `None`. So raising the limit never changes or removes an escape already
/// found, and a point that does not escape under a limit escapes under no
/// smaller one.
pub proof fn lemma_limits_agree<P, S: Fn(P, P) -> Option<P>>(
    step: &S,
    c: P,
    smaller: u32,
    larger: u32,
    under_smaller: Option<u32>,
    under_larger: Option<u32>,
)
    requires
        step_is_function(step),
        smaller <= larger,
        is_escape_time(step, c, smaller, under_smaller),
        is_escape_time(step, c, larger, under_larger),
    ensures
        under_smaller == (match under_larger {
            Some(i) => if i < smaller {
                Some(i)
            } else {
                None
            },
            None => None,
        }),
        under_smaller is Some ==> under_larger == under_smaller,
{
    match under_smaller {
        Some(j) => {
            lemma_escape_kept_by_larger_limit(step, c, smaller, larger, j);
            lemma_escape_time_deterministic(step, c, larger, Some(j), under_larger);
        },
        None => {
            match under_larger {
                Some(i) => {
                    if i < smaller {
                        lemma_escape_time_deterministic(step, c, smaller, Some(i), under_smaller);
                    }
                },
                None => {},
            }
        },
    }
}

/// The first step decides whether the answer is `Some(1)`. The answer is
/// `Some(1)` only if the step reports an escape at `c` itself; and where the
/// step can report nothing but an escape at `c`, and the limit lets one step
/// be taken, the answer is `Some(1)`.
pub proof fn lemma_first_step_decides<P, S: Fn(P, P) -> Option<P>>(
    step: &S,
    c: P,
    limit: u32,
    time: Option<u32>,
)
    requires
        is_escape_time(step, c, limit, time),
    ensures
        time == Some(1u32) ==> step.ensures((c, c), None),
        limit >= 2 && (forall|next: P| !step.ensures((c, c), Some(next))) ==> time == Some(1u32),
{
    if time == Some(1u32) {
        let orbit = choose|orbit: Seq<P>|
            #![trigger is_orbit(step, c, orbit)]
            orbit.len() == 1 && is_orbit(step, c, orbit) && step.ensures((c, orbit[1 - 1]), None);
        assert(orbit[0] == c);
    }
    if limit >= 2 && (forall|next: P| !step.ensures((c, c), Some(next))) {
        match time {
            Some(i) => {
                if i >= 2 {
                    let orbit = choose|orbit: Seq<P>|
                        #![trigger is_orbit(step, c, orbit)]
                        orbit.len() == i && is_orbit(step, c, orbit) && step.ensures(
                            (c, orbit[i - 1]),
                            None,
                        );
                    assert(step.ensures((c, orbit[0]), Some(orbit[1])));
                }
            },
            None => {
                let orbit = choose|orbit: Seq<P>|
                    #![trigger is_orbit(step, c, orbit)]
                    orbit.len() == limit - 1 + 1 && is_orbit(step, c, orbit);
                assert(step.ensures((c, orbit[0]), Some(orbit[1])));
            },
        }
    }
}

/// Once an orbit reports an escape at step `i`, no orbit from the same point
/// has more than `i` points.
proof fn lemma_escape_bounds_orbits<P, S: Fn(P, P) -> Option<P>>(
    step: &S,
    c: P,
    escaping: Seq<P>,
    other: Seq<P>,
    i: int,
)
    requires
        step_is_function(step),
        is_orbit(step, c, escaping),
        is_orbit(step, c, other),
        1 <= i == escaping.len(),
        step.ensures((c, escaping[i - 1]), None),
    ensures
        other.len() <= i,
{
    if other.len() > i {
        lemma_orbits_agree(step, c, escaping, other, i - 1);
        assert(step.ensures((c, other[i - 1]), Some(other[i])));
        assert(Some(other[i]) == None::<P>);
    }
}

} // verus!

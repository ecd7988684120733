//! Walks that follow links from state to state until a state says stop.
//!
//! Clients and miners walk back along `prevBlockHash` links until they reach
//! a block they look for; on a cycle of links such a walk would never end, so
//! here every walk takes at most a given number of steps. Where each state after the first
//! falls in one of `n` classes, and states of one class walk alike, a walk
//! that stops at all stops within `n` steps: a longer one repeats a class and
//! goes round for ever. So `n` steps lose nothing.
use vstd::prelude::*;

verus! {

/// Walks from `s` with `next` until `stop` holds, taking at most `fuel`
/// steps: the state where it stops, or `None` where a step fails or the
/// steps run out.
pub open spec fn walk<S>(next: spec_fn(S) -> Option<S>, stop: spec_fn(S) -> bool, s: S, fuel: nat) -> Option<S>
    decreases fuel,
{
    if stop(s) {
        Some(s)
    } else if fuel == 0 {
        None
    } else {
        match next(s) {
            None => None,
            Some(t) => walk(next, stop, t, (fuel - 1) as nat),
        }
    }
}

/// The state `i` steps after `s`, whether or not one stops on the way.
pub open spec fn nth<S>(next: spec_fn(S) -> Option<S>, s: S, i: nat) -> Option<S>
    decreases i,
{
    if i == 0 {
        Some(s)
    } else {
        match nth(next, s, (i - 1) as nat) {
            None => None,
            Some(t) => next(t),
        }
    }
}

/// A state that is there and does not stop.
pub open spec fn unstopped<S>(stop: spec_fn(S) -> bool, o: Option<S>) -> bool {
    o is Some && !stop(o.unwrap())
}

/// From `s`, `i` steps can be taken, and none of the first `i` states stops.
pub open spec fn goes<S>(next: spec_fn(S) -> Option<S>, stop: spec_fn(S) -> bool, s: S, i: nat) -> bool {
    &&& forall|k: nat| k < i ==> unstopped(stop, (#[trigger] nth(next, s, k)))
    &&& nth(next, s, i) is Some
}

/// A walk that succeeds keeps its outcome with more steps.
pub proof fn lemma_walk_more<S>(next: spec_fn(S) -> Option<S>, stop: spec_fn(S) -> bool, s: S, f: nat, g: nat)
    requires
        f <= g,
        walk(next, stop, s, f) is Some,
    ensures
        walk(next, stop, s, g) == walk(next, stop, s, f),
    decreases f,
{
    if !stop(s) {
        let t = next(s).unwrap();
        lemma_walk_more(next, stop, t, (f - 1) as nat, (g - 1) as nat);
    }
}

/// Counting steps from the state `i` steps on.
proof fn lemma_nth_shift<S>(next: spec_fn(S) -> Option<S>, s: S, i: nat, t: S, m: nat)
    requires
        nth(next, s, i) == Some(t),
    ensures
        nth(next, t, m) == nth(next, s, i + m),
    decreases m,
{
    if m > 0 {
        lemma_nth_shift(next, s, i, t, (m - 1) as nat);
        assert((i + m - 1) as nat == (i + (m - 1)) as nat);
    }
}

/// Going `i` steps without stopping, the walk goes on from the state reached.
proof fn lemma_walk_skip<S>(next: spec_fn(S) -> Option<S>, stop: spec_fn(S) -> bool, s: S, i: nat, f: nat)
    requires
        goes(next, stop, s, i),
        f >= i,
    ensures
        walk(next, stop, s, f) == walk(next, stop, nth(next, s, i).unwrap(), (f - i) as nat),
    decreases i,
{
    if i > 0 {
        let j = (i - 1) as nat;
        assert(nth(next, s, j) is Some && !stop(nth(next, s, j).unwrap()));
        assert(goes(next, stop, s, j)) by {
            assert forall|k: nat| k < j implies unstopped(stop, (#[trigger] nth(next, s, k))) by {
                assert(k < i);
            }
        }
        lemma_walk_skip(next, stop, s, j, f);
    }
}

/// A walk that fails with `n` steps but succeeds with more goes `n + 1`
/// steps without stopping.
proof fn lemma_walk_goes<S>(next: spec_fn(S) -> Option<S>, stop: spec_fn(S) -> bool, s: S, n: nat, g: nat)
    requires
        walk(next, stop, s, n) is None,
        walk(next, stop, s, g) is Some,
    ensures
        goes(next, stop, s, n + 1),
    decreases n,
{
    if g <= n {
        lemma_walk_more(next, stop, s, g, n);
    }
    let t = next(s).unwrap();
    if n == 0 {
        assert(nth(next, s, 0) == Some(s));
        assert(nth(next, s, 1) == next(s));
        assert forall|k: nat| k < 1 implies unstopped(stop, (#[trigger] nth(next, s, k))) by {
            assert(k == 0);
        }
    } else {
        lemma_walk_goes(next, stop, t, (n - 1) as nat, (g - 1) as nat);
        assert(nth(next, s, 0) == Some(s));
        assert(nth(next, s, 1) == Some(t));
        lemma_nth_shift(next, s, 1, t, n);
        assert forall|k: nat| k < n + 1 implies unstopped(stop, (#[trigger] nth(next, s, k))) by {
            if k > 0 {
                lemma_nth_shift(next, s, 1, t, (k - 1) as nat);
                assert(unstopped(stop, nth(next, t, (k - 1) as nat)));
            }
        }
    }
}

/// States of one class (`key` in `[0, n)`) stop alike, fail alike, and step
/// to states of one class; every state reached by a step has a class.
pub open spec fn classes_agree<S>(
    next: spec_fn(S) -> Option<S>,
    stop: spec_fn(S) -> bool,
    key: spec_fn(S) -> int,
    n: nat,
) -> bool {
    &&& forall|x: S, y: S|
        0 <= #[trigger] key(x) < n && key(x) == #[trigger] key(y) ==> stop(x) == stop(y) && (next(x) is Some)
            == (next(y) is Some) && (next(x) is Some ==> key(next(x).unwrap()) == key(next(y).unwrap()))
    &&& forall|x: S| (#[trigger] next(x)) is Some ==> 0 <= key(next(x).unwrap()) < n
}

/// Two states of one class walk alike.
proof fn lemma_same_class<S>(
    next: spec_fn(S) -> Option<S>,
    stop: spec_fn(S) -> bool,
    key: spec_fn(S) -> int,
    n: nat,
    x: S,
    y: S,
    f: nat,
)
    requires
        classes_agree(next, stop, key, n),
        0 <= key(x) < n,
        key(x) == key(y),
    ensures
        (walk(next, stop, x, f) is Some) == (walk(next, stop, y, f) is Some),
    decreases f,
{
    if f > 0 && !stop(x) && next(x) is Some {
        let x2 = next(x).unwrap();
        let y2 = next(y).unwrap();
        assert(0 <= key(x2) < n);
        lemma_same_class(next, stop, key, n, x2, y2, (f - 1) as nat);
    }
}

/// Where the walk meets a class again after `i` and `j` steps, without
/// stopping before `j`, it never stops after `j`.
proof fn lemma_cycle<S>(
    next: spec_fn(S) -> Option<S>,
    stop: spec_fn(S) -> bool,
    key: spec_fn(S) -> int,
    n: nat,
    s: S,
    i: nat,
    j: nat,
    m: nat,
)
    requires
        classes_agree(next, stop, key, n),
        i < j,
        goes(next, stop, s, j),
        0 <= key(nth(next, s, i).unwrap()) < n,
        key(nth(next, s, i).unwrap()) == key(nth(next, s, j).unwrap()),
    ensures
        walk(next, stop, nth(next, s, j).unwrap(), m) is None,
    decreases m,
{
    let xi = nth(next, s, i).unwrap();
    let xj = nth(next, s, j).unwrap();
    let p = (j - i) as nat;
    assert(unstopped(stop, nth(next, s, i)));
    lemma_nth_shift(next, s, i, xi, p);
    assert(goes(next, stop, xi, p)) by {
        assert forall|k: nat| k < p implies unstopped(stop, (#[trigger] nth(next, xi, k))) by {
            lemma_nth_shift(next, s, i, xi, k);
            assert(unstopped(stop, nth(next, s, i + k)));
        }
    }
    lemma_same_class(next, stop, key, n, xi, xj, m);
    if walk(next, stop, xi, m) is Some {
        if m < p {
            assert(goes(next, stop, xi, m)) by {
                lemma_nth_shift(next, s, i, xi, m);
                assert(unstopped(stop, nth(next, s, i + m)));
            }
            lemma_walk_skip(next, stop, xi, m, m);
            lemma_nth_shift(next, s, i, xi, m);
            assert(unstopped(stop, nth(next, s, i + m)));
        } else {
            lemma_walk_skip(next, stop, xi, p, m);
            lemma_cycle(next, stop, key, n, s, i, j, (m - p) as nat);
        }
    }
}

/// Among `n + 1` values in `[0, n)`, two are equal.
proof fn lemma_pigeonhole(f: spec_fn(nat) -> int, n: nat) -> (r: (nat, nat))
    requires
        forall|i: nat| i <= n ==> 0 <= #[trigger] f(i) < n,
    ensures
        r.0 < r.1 <= n,
        f(r.0) == f(r.1),
    decreases n,
{
    assert(0 <= f(0) < n);
    let v = f(n);
    if exists|i: nat| i < n && #[trigger] f(i) == v {
        let i = choose|i: nat| i < n && #[trigger] f(i) == v;
        (i, n)
    } else {
        let m = (n - 1) as nat;
        let g = |i: nat| if f(i) == m { v } else { f(i) };
        assert forall|i: nat| i <= m implies 0 <= #[trigger] g(i) < m by {
            assert(f(i) != v);
            assert(0 <= f(i) < n);
        }
        let r = lemma_pigeonhole(g, m);
        assert(f(r.0) != v && f(r.1) != v);
        r
    }
}

/// A walk whose classes agree (`n` of them) and that stops at all, stops
/// within `n` steps, the same way.
pub proof fn lemma_walk_suffices<S>(
    next: spec_fn(S) -> Option<S>,
    stop: spec_fn(S) -> bool,
    key: spec_fn(S) -> int,
    n: nat,
    s: S,
    g: nat,
    f: nat,
)
    requires
        classes_agree(next, stop, key, n),
        f >= n,
        walk(next, stop, s, g) is Some,
    ensures
        walk(next, stop, s, f) == walk(next, stop, s, g),
{
    if g <= f {
        lemma_walk_more(next, stop, s, g, f);
    } else if walk(next, stop, s, n) is Some {
        lemma_walk_more(next, stop, s, n, f);
        lemma_walk_more(next, stop, s, n, g);
    } else {
        lemma_walk_goes(next, stop, s, n, g);
        let ks = |t: nat| key(nth(next, s, t + 1).unwrap());
        assert forall|t: nat| t <= n implies 0 <= #[trigger] ks(t) < n by {
            let a = nth(next, s, t).unwrap();
            assert(unstopped(stop, nth(next, s, t)));
            assert(nth(next, s, (t + 1) as nat) == next(a));
            assert(nth(next, s, (t + 1) as nat) is Some) by {
                if t < n {
                    assert(unstopped(stop, nth(next, s, (t + 1) as nat)));
                }
            }
        }
        let r = lemma_pigeonhole(ks, n);
        let i = (r.0 + 1) as nat;
        let j = (r.1 + 1) as nat;
        assert(goes(next, stop, s, j)) by {
            assert forall|k: nat| k < j implies unstopped(stop, (#[trigger] nth(next, s, k))) by {
                assert(k < n + 1);
            }
            if j < n + 1 {
                assert(unstopped(stop, nth(next, s, j)));
            }
        }
        assert(0 <= ks(r.0) < n);
        lemma_walk_skip(next, stop, s, j, g);
        lemma_cycle(next, stop, key, n, s, i, j, (g - j) as nat);
    }
}

} // verus!

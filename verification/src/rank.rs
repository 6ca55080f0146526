//! Strongest-first selection: the stable descending order that every budget
//! in the engine cuts.

use crate::single::Single;
use vstd::prelude::*;

verus! {

/// Entry `a` comes before entry `b`: its key is larger in the total order, or
/// the keys are equal and it was listed first.
pub open spec fn precedes(keys: Seq<Single>, a: int, b: int) -> bool {
    ||| keys[a].total_rank() > keys[b].total_rank()
    ||| keys[a].total_rank() == keys[b].total_rank() && a < b
}

/// `picks` lists entries of `keys`, strongest first.
pub open spec fn is_descending(keys: Seq<Single>, picks: Seq<usize>) -> bool {
    &&& forall|i: int| 0 <= i < picks.len() ==> #[trigger] picks[i] < keys.len()
    &&& forall|i: int, j: int|
        0 <= i < j < picks.len() ==> precedes(keys, #[trigger] picks[i] as int, #[trigger] picks[j] as int)
}

/// `picks` lists the `max` strongest entries of `keys` (all of them where
/// there are fewer), strongest first.
pub open spec fn is_top(keys: Seq<Single>, max: nat, picks: Seq<usize>) -> bool {
    &&& is_descending(keys, picks)
    &&& picks.len() == (if keys.len() <= max { keys.len() } else { max })
    &&& forall|k: usize, i: int|
        #![trigger picks[i], picks.contains(k)]
        k < keys.len() && !picks.contains(k) && 0 <= i < picks.len() ==> precedes(
            keys,
            picks[i] as int,
            k as int,
        )
}

fn before(keys: &[Single], a: usize, b: usize) -> (r: bool)
    requires
        a < keys@.len(),
        b < keys@.len(),
    ensures
        r == precedes(keys@, a as int, b as int),
{
    if keys[b].total_lt(keys[a]) {
        true
    } else if keys[a].total_lt(keys[b]) {
        false
    } else {
        a < b
    }
}

/// Merge two descending lists without common entries.
fn merge(keys: &[Single], left: &Vec<usize>, right: &Vec<usize>) -> (r: Vec<usize>)
    requires
        is_descending(keys@, left@),
        is_descending(keys@, right@),
        left@.len() + right@.len() <= usize::MAX,
        forall|k: usize| left@.contains(k) ==> !right@.contains(k),
    ensures
        is_descending(keys@, r@),
        r@.len() == left@.len() + right@.len(),
        forall|k: usize| #[trigger] r@.contains(k) <==> left@.contains(k) || right@.contains(k),
{
    let mut r: Vec<usize> = Vec::new();
    let mut i: usize = 0;
    let mut j: usize = 0;
    while i < left.len() || j < right.len()
        invariant
            is_descending(keys@, left@),
            is_descending(keys@, right@),
            left@.len() + right@.len() <= usize::MAX,
            forall|k: usize| left@.contains(k) ==> !right@.contains(k),
            i <= left@.len(),
            j <= right@.len(),
            r@.len() == i + j,
            is_descending(keys@, r@),
            forall|k: usize| #[trigger]
                r@.contains(k) <==> left@.take(i as int).contains(k) || right@.take(
                    j as int,
                ).contains(k),
            forall|x: int, y: int|
                0 <= x < r@.len() && i <= y < left@.len() ==> precedes(
                    keys@,
                    #[trigger] r@[x] as int,
                    #[trigger] left@[y] as int,
                ),
            forall|x: int, y: int|
                0 <= x < r@.len() && j <= y < right@.len() ==> precedes(
                    keys@,
                    #[trigger] r@[x] as int,
                    #[trigger] right@[y] as int,
                ),
        decreases left@.len() + right@.len() - i - j,
    {
        let take_left: bool = if i >= left.len() {
            false
        } else if j >= right.len() {
            true
        } else {
            before(keys, left[i], right[j])
        };
        let ghost before_push = r@;
        if take_left {
            proof {
                let v = left@[i as int];
                assert forall|y: int| j <= y < right@.len() implies precedes(
                    keys@,
                    v as int,
                    #[trigger] right@[y] as int,
                ) by {
                    assert(precedes(keys@, v as int, right@[j as int] as int));
                    if y > j {
                        assert(precedes(keys@, right@[j as int] as int, right@[y] as int));
                    }
                }
                lemma_take_push(left@, i as int);
                lemma_push_contains(before_push, v);
                lemma_push_contains(left@.take(i as int), v);
            }
            r.push(left[i]);
            i = i + 1;
        } else {
            proof {
                let v = right@[j as int];
                assert forall|y: int| i <= y < left@.len() implies precedes(
                    keys@,
                    v as int,
                    #[trigger] left@[y] as int,
                ) by {
                    let u = left@[i as int];
                    assert(left@.contains(u) && right@.contains(v));
                    assert(u != v);
                    assert(precedes(keys@, v as int, u as int));
                    if y > i {
                        assert(precedes(keys@, u as int, left@[y] as int));
                    }
                }
                lemma_take_push(right@, j as int);
                lemma_push_contains(before_push, v);
                lemma_push_contains(right@.take(j as int), v);
            }
            r.push(right[j]);
            j = j + 1;
        }
    }
    proof {
        assert(left@.take(i as int) =~= left@);
        assert(right@.take(j as int) =~= right@);
    }
    r
}

proof fn lemma_take_push(s: Seq<usize>, i: int)
    requires
        0 <= i < s.len(),
    ensures
        s.take(i + 1) == s.take(i).push(s[i]),
{
    assert(s.take(i + 1) =~= s.take(i).push(s[i]));
}

proof fn lemma_push_contains(s: Seq<usize>, v: usize)
    ensures
        forall|k: usize| #[trigger] s.push(v).contains(k) <==> s.contains(k) || k == v,
{
    assert forall|k: usize| #[trigger] s.push(v).contains(k) <==> s.contains(k) || k == v by {
        if s.contains(k) {
            let i = choose|i: int| 0 <= i < s.len() && s[i] == k;
            assert(s.push(v)[i] == k);
        }
        if k == v {
            assert(s.push(v)[s.len() as int] == k);
        }
        if s.push(v).contains(k) && k != v {
            let i = choose|i: int| 0 <= i < s.push(v).len() && s.push(v)[i] == k;
            assert(s[i] == k);
        }
    }
}

/// The entries lo..hi, strongest first.
fn sort_range(keys: &[Single], lo: usize, hi: usize) -> (r: Vec<usize>)
    requires
        lo <= hi <= keys@.len(),
    ensures
        is_descending(keys@, r@),
        r@.len() == hi - lo,
        forall|k: usize| #[trigger] r@.contains(k) <==> lo <= k < hi,
    decreases hi - lo,
{
    if hi - lo == 0 {
        return Vec::new();
    }
    if hi - lo == 1 {
        let mut one: Vec<usize> = Vec::new();
        one.push(lo);
        assert(one@[0] == lo);
        return one;
    }
    let mid: usize = lo + (hi - lo) / 2;
    let left: Vec<usize> = sort_range(keys, lo, mid);
    let right: Vec<usize> = sort_range(keys, mid, hi);
    merge(keys, &left, &right)
}

/// The `max` strongest entries of `keys`, strongest first; equal keys keep the
/// order they were listed in.
pub fn strongest(keys: &[Single], max: usize) -> (picks: Vec<usize>)
    ensures
        is_top(keys@, max as nat, picks@),
        picks@ == top(keys@, max as nat),
{
    let mut all: Vec<usize> = sort_range(keys, 0, keys.len());
    let ghost full = all@;
    if all.len() > max {
        all.truncate(max);
    }
    proof {
        assert forall|k: usize, i: int|
            #![trigger all@[i], all@.contains(k)]
            k < keys@.len() && !all@.contains(k) && 0 <= i < all@.len() implies precedes(
            keys@,
            all@[i] as int,
            k as int,
        ) by {
            assert(full.contains(k));
            let j = choose|j: int| 0 <= j < full.len() && full[j] == k;
            if j < all@.len() {
                assert(all@[j] == k);
            }
            assert(precedes(keys@, full[i] as int, full[j] as int));
        }
        top_is_the_one(keys@, max as nat, all@);
    }
    all
}

/// The selection is determined by the keys and the cap alone.
pub proof fn top_is_unique(keys: Seq<Single>, max: nat, a: Seq<usize>, b: Seq<usize>)
    requires
        is_top(keys, max, a),
        is_top(keys, max, b),
    ensures
        a == b,
{
    assert forall|i: int| 0 <= i < a.len() implies a[i] == b[i] by {
        lemma_top_agrees(keys, max, a, b, i);
    }
    assert(a =~= b);
}

proof fn lemma_top_agrees(keys: Seq<Single>, max: nat, a: Seq<usize>, b: Seq<usize>, i: int)
    requires
        is_top(keys, max, a),
        is_top(keys, max, b),
        0 <= i < a.len(),
    ensures
        forall|j: int| 0 <= j <= i ==> a[j] == b[j],
    decreases i,
{
    if i > 0 {
        lemma_top_agrees(keys, max, a, b, i - 1);
    }
    if a[i] != b[i] {
        lemma_first_pick_wins(keys, max, a, b, i);
        lemma_first_pick_wins(keys, max, b, a, i);
    }
}

/// Where two selections first differ, the one's pick does not come after the
/// other's.
proof fn lemma_first_pick_wins(keys: Seq<Single>, max: nat, a: Seq<usize>, b: Seq<usize>, i: int)
    requires
        is_top(keys, max, a),
        is_top(keys, max, b),
        0 <= i < a.len(),
        a.len() == b.len(),
        forall|j: int| 0 <= j < i ==> a[j] == b[j],
        a[i] != b[i],
    ensures
        precedes(keys, b[i] as int, a[i] as int),
{
    let v = a[i];
    if b.contains(v) {
        let j = choose|j: int| 0 <= j < b.len() && b[j] == v;
        if j < i {
            assert(a[j] == v);
            assert(precedes(keys, a[j] as int, a[i] as int));
            assert(false);
        }
        assert(precedes(keys, b[i] as int, b[j] as int));
    } else {
        assert(precedes(keys, b[i] as int, (v as int)));
    }
}

/// The strongest `max` of the candidates `ids`, each with its score, strongest
/// first.
pub fn best(scores: &[Single], ids: &Vec<usize>, max: usize) -> (out: Vec<usize>)
    requires
        scores@.len() == ids@.len(),
    ensures
        out@ == best_of(scores@, ids@, max as nat),
        out@.len() <= max,
        out@.len() <= ids@.len(),
        forall|i: int| 0 <= i < out@.len() ==> ids@.contains(#[trigger] out@[i]),
{
    let picks: Vec<usize> = strongest(scores, max);
    let mut out: Vec<usize> = Vec::new();
    let mut i: usize = 0;
    while i < picks.len()
        invariant
            i <= picks@.len(),
            scores@.len() == ids@.len(),
            forall|j: int| 0 <= j < picks@.len() ==> #[trigger] picks@[j] < scores@.len(),
            out@ == Seq::new(i as nat, |j: int| ids@[picks@[j] as int]),
        decreases picks@.len() - i,
    {
        out.push(ids[picks[i]]);
        i = i + 1;
        assert(out@ =~= Seq::new(i as nat, |j: int| ids@[picks@[j] as int]));
    }
    out
}

/// `picks` lists every entry of `keys` once, weakest first; entries with equal
/// keys keep their order.
pub open spec fn is_rising(keys: Seq<Single>, picks: Seq<usize>) -> bool {
    &&& picks.len() == keys.len()
    &&& forall|i: int| 0 <= i < picks.len() ==> #[trigger] picks[i] < keys.len()
    &&& forall|i: int, j: int|
        #![trigger picks[i], picks[j]]
        0 <= i < j < picks.len() ==> {
            let a = keys[picks[i] as int].total_rank();
            let b = keys[picks[j] as int].total_rank();
            a < b || a == b && picks[i] < picks[j]
        }
}

/// All entries, weakest first.
pub open spec fn risen(keys: Seq<Single>) -> Seq<usize> {
    top(Seq::new(keys.len(), |i: int| keys[i].negated()), keys.len())
}

/// List all entries, weakest first.
pub fn rising(keys: &[Single]) -> (picks: Vec<usize>)
    ensures
        is_rising(keys@, picks@),
        picks@ == risen(keys@),
{
    let mut flipped: Vec<Single> = Vec::new();
    let mut i: usize = 0;
    while i < keys.len()
        invariant
            i <= keys@.len(),
            flipped@ == Seq::new(i as nat, |j: int| keys@[j].negated()),
        decreases keys@.len() - i,
    {
        flipped.push(keys[i].neg());
        i = i + 1;
        assert(flipped@ =~= Seq::new(i as nat, |j: int| keys@[j].negated()));
    }
    let picks: Vec<usize> = strongest(flipped.as_slice(), keys.len());
    proof {
        assert forall|i: int, j: int|
            #![trigger picks@[i], picks@[j]]
            0 <= i < j < picks@.len() implies ({
            let a = keys@[picks@[i] as int].total_rank();
            let b = keys@[picks@[j] as int].total_rank();
            a < b || a == b && picks@[i] < picks@[j]
        }) by {
            assert(precedes(flipped@, picks@[i] as int, picks@[j] as int));
            assert(flipped@[picks@[i] as int] == keys@[picks@[i] as int].negated());
            assert(flipped@[picks@[j] as int] == keys@[picks@[j] as int].negated());
        }
    }
    picks
}

/// The `max` strongest entries of `keys`, strongest first.
pub open spec fn top(keys: Seq<Single>, max: nat) -> Seq<usize> {
    choose|picks: Seq<usize>| is_top(keys, max, picks)
}

/// The strongest `max` of the candidates, strongest first.
pub open spec fn best_of(scores: Seq<Single>, ids: Seq<usize>, max: nat) -> Seq<usize> {
    Seq::new(top(scores, max).len(), |i: int| ids[top(scores, max)[i] as int])
}

/// There is one list of the strongest.
pub proof fn top_is_the_one(keys: Seq<Single>, max: nat, picks: Seq<usize>)
    requires
        is_top(keys, max, picks),
    ensures
        top(keys, max) == picks,
{
    top_is_unique(keys, max, top(keys, max), picks);
}

/// Where `x` stands among entries listed strongest first: everything before
/// the place precedes it, and it precedes everything behind.
proof fn lemma_place(keys: Seq<Single>, picks: Seq<usize>, x: int, k: int) -> (p: int)
    requires
        is_descending(keys, picks),
        0 <= x < keys.len(),
        forall|i: int| 0 <= i < picks.len() ==> #[trigger] picks[i] != x,
        0 <= k <= picks.len(),
        forall|i: int| k <= i < picks.len() ==> precedes(keys, x, #[trigger] picks[i] as int),
    ensures
        0 <= p <= k,
        forall|i: int| 0 <= i < p ==> precedes(keys, #[trigger] picks[i] as int, x),
        forall|i: int| p <= i < picks.len() ==> precedes(keys, x, #[trigger] picks[i] as int),
    decreases k,
{
    if k == 0 {
        0
    } else if precedes(keys, picks[k - 1] as int, x) {
        assert forall|i: int| 0 <= i < k implies precedes(keys, #[trigger] picks[i] as int, x) by {
            if i < k - 1 {
                assert(precedes(keys, picks[i] as int, picks[k - 1] as int));
            }
        }
        k
    } else {
        lemma_place(keys, picks, x, k - 1)
    }
}

/// The first `n` entries can be listed strongest first.
pub(crate) proof fn lemma_sorted(keys: Seq<Single>, n: int) -> (picks: Seq<usize>)
    requires
        0 <= n <= keys.len() <= usize::MAX,
    ensures
        is_descending(keys, picks),
        picks.len() == n,
        forall|i: int| 0 <= i < n ==> #[trigger] picks[i] < n,
        forall|k: usize| k < n ==> #[trigger] picks.contains(k),
    decreases n,
{
    if n == 0 {
        Seq::empty()
    } else {
        let rest = lemma_sorted(keys, n - 1);
        let x = (n - 1) as usize;
        let p = lemma_place(keys, rest, x as int, rest.len() as int);
        let picks = rest.insert(p, x);
        assert forall|i: int, j: int| 0 <= i < j < picks.len() implies precedes(
            keys,
            #[trigger] picks[i] as int,
            #[trigger] picks[j] as int,
        ) by {
            let a = if i < p { i } else { i - 1 };
            let b = if j < p { j } else { j - 1 };
            if i == p {
                assert(picks[j] == rest[b]);
            } else if j == p {
                assert(picks[i] == rest[a]);
            } else {
                assert(picks[i] == rest[a] && picks[j] == rest[b]);
            }
        }
        assert forall|k: usize| k < n implies #[trigger] picks.contains(k) by {
            if k == x {
                assert(picks[p] == k);
            } else {
                assert(rest.contains(k));
                let i = choose|i: int| 0 <= i < rest.len() && rest[i] == k;
                assert(picks[if i < p { i } else { i + 1 }] == k);
            }
        }
        picks
    }
}

/// The strongest can always be listed.
pub proof fn the_strongest_are_listed(keys: Seq<Single>, max: nat)
    requires
        keys.len() <= usize::MAX,
    ensures
        is_top(keys, max, top(keys, max)),
{
    let all = lemma_sorted(keys, keys.len() as int);
    let picks = if keys.len() <= max {
        all
    } else {
        all.take(max as int)
    };
    assert forall|k: usize, i: int|
        #![trigger picks[i], picks.contains(k)]
        k < keys.len() && !picks.contains(k) && 0 <= i < picks.len() implies precedes(
        keys,
        picks[i] as int,
        k as int,
    ) by {
        assert(all.contains(k));
        let j = choose|j: int| 0 <= j < all.len() && all[j] == k;
        if j < picks.len() {
            assert(picks[j] == k);
        }
        assert(picks[i] == all[i]);
        assert(precedes(keys, all[i] as int, all[j] as int));
    }
    assert(is_top(keys, max, picks));
}

/// All entries can be listed weakest first.
pub proof fn the_weakest_come_first(keys: Seq<Single>)
    requires
        keys.len() <= usize::MAX,
    ensures
        is_rising(keys, risen(keys)),
{
    let flipped = Seq::new(keys.len(), |i: int| keys[i].negated());
    the_strongest_are_listed(flipped, keys.len());
    let picks = risen(keys);
    assert forall|i: int, j: int|
        #![trigger picks[i], picks[j]]
        0 <= i < j < picks.len() implies ({
        let a = keys[picks[i] as int].total_rank();
        let b = keys[picks[j] as int].total_rank();
        a < b || a == b && picks[i] < picks[j]
    }) by {
        assert(precedes(flipped, picks[i] as int, picks[j] as int));
        assert(flipped[picks[i] as int] == keys[picks[i] as int].negated());
        assert(flipped[picks[j] as int] == keys[picks[j] as int].negated());
    }
}

} // verus!

use vstd::prelude::*;

verus! {

/// Distances along a ray are compared as keys: for distances that are not
/// negative, a larger distance has a larger key (the bit pattern of an IEEE-754
/// single-precision value orders this way), and a positive distance has a
/// positive key. A candidate hit is taken when its key is positive and
/// strictly below the best key so far.
pub open spec fn accepts(key: u32, best: u32) -> bool {
    0 < key && key < best
}

/// Index `i` holds the hit that a traversal in order, starting from the bound
/// `limit`, keeps: an accepted key that no other accepted key undercuts, and
/// that no earlier accepted key equals.
pub open spec fn is_nearest(keys: Seq<u32>, limit: u32, i: int) -> bool {
    &&& 0 <= i < keys.len()
    &&& accepts(keys[i], limit)
    &&& forall|j: int| 0 <= j < keys.len() && accepts(#[trigger] keys[j], limit) ==> keys[i] <= keys[j]
    &&& forall|j: int| 0 <= j < i && accepts(#[trigger] keys[j], limit) ==> keys[i] < keys[j]
}

/// Some object's key is accepted against `limit`.
pub open spec fn any_accepted(keys: Seq<u32>, limit: u32) -> bool {
    exists|j: int| 0 <= j < keys.len() && accepts(#[trigger] keys[j], limit)
}

/// Whether a candidate hit at `key` is closer than the best hit so far at `best`.
pub fn closer(key: u32, best: u32) -> (r: bool)
    ensures
        r == accepts(key, best),
{
    0 < key && key < best
}

/// The nearest hit among the objects of a scene, given each object's candidate
/// distance key in declaration order: the objects are tried in order against
/// one best-so-far bound that starts at `limit`, and each accepted candidate
/// lowers it. On equal distances the first object wins.
pub fn nearest_hit(keys: &Vec<u32>, limit: u32) -> (r: Option<usize>)
    ensures
        r matches Some(i) ==> is_nearest(keys@, limit, i as int),
        r is None <==> !any_accepted(keys@, limit),
{
    let mut best: u32 = limit;
    let mut found: Option<usize> = None;
    let mut j: usize = 0;
    while j < keys.len()
        invariant
            j <= keys.len(),
            found is None ==> best == limit && !any_accepted(keys@.subrange(0, j as int), limit),
            found matches Some(i) ==> best == keys@[i as int] && is_nearest(
                keys@.subrange(0, j as int),
                limit,
                i as int,
            ),
        decreases keys.len() - j,
    {
        let k = keys[j];
        proof {
            let pre = keys@.subrange(0, j as int);
            let next = keys@.subrange(0, j + 1);
            assert(next =~= pre.push(k));
            assert forall|m: int| 0 <= m < j implies next[m] == #[trigger] pre[m] by {}
            if found is None && !accepts(k, limit) {
                assert(!any_accepted(next, limit)) by {
                    if any_accepted(next, limit) {
                        let m = choose|m: int| 0 <= m < next.len() && accepts(#[trigger] next[m], limit);
                        assert(pre[m] == next[m]);
                    }
                }
            }
        }
        if closer(k, best) {
            best = k;
            found = Some(j);
        }
        j += 1;
    }
    proof {
        assert(keys@.subrange(0, keys.len() as int) =~= keys@);
    }
    found
}

/// Whether some object of a scene is hit closer than `limit`, given each
/// object's candidate distance key: the objects are tried in order and the
/// first accepted one ends the search.
pub fn first_hit(keys: &Vec<u32>, limit: u32) -> (r: Option<usize>)
    ensures
        r matches Some(i) ==> i < keys.len() && accepts(keys@[i as int], limit) && forall|j: int|
            0 <= j < i ==> !accepts(#[trigger] keys@[j], limit),
        r is None <==> !any_accepted(keys@, limit),
{
    let mut j: usize = 0;
    while j < keys.len()
        invariant
            j <= keys.len(),
            forall|m: int| 0 <= m < j ==> !accepts(#[trigger] keys@[m], limit),
        decreases keys.len() - j,
    {
        if closer(keys[j], limit) {
            return Some(j);
        }
        j += 1;
    }
    None
}

proof fn lemma_same_keys(a: Seq<u32>, b: Seq<u32>, x: u32)
    requires
        a.to_multiset() =~= b.to_multiset(),
        a.contains(x),
    ensures
        b.contains(x),
{
    a.to_multiset_ensures();
    b.to_multiset_ensures();
    assert(a.to_multiset().count(x) > 0);
    assert(b.to_multiset().count(x) > 0);
}

/// The nearest hit does not depend on the order in which the objects are
/// declared: for two orderings of the same candidate keys, one has a hit
/// exactly when the other has, and the hits kept lie at the same distance.
pub proof fn lemma_nearest_order_free(a: Seq<u32>, b: Seq<u32>, limit: u32)
    requires
        a.to_multiset() =~= b.to_multiset(),
    ensures
        any_accepted(a, limit) == any_accepted(b, limit),
        forall|i: int, j: int|
            is_nearest(a, limit, i) && is_nearest(b, limit, j) ==> #[trigger] a[i] == #[trigger] b[j],
{
    if any_accepted(a, limit) {
        let m = choose|m: int| 0 <= m < a.len() && accepts(#[trigger] a[m], limit);
        lemma_same_keys(a, b, a[m]);
    }
    if any_accepted(b, limit) {
        let m = choose|m: int| 0 <= m < b.len() && accepts(#[trigger] b[m], limit);
        lemma_same_keys(b, a, b[m]);
    }
    assert forall|i: int, j: int|
        is_nearest(a, limit, i) && is_nearest(b, limit, j) implies #[trigger] a[i] == #[trigger] b[j] by {
        lemma_same_keys(a, b, a[i]);
        lemma_same_keys(b, a, b[j]);
    }
}

} // verus!

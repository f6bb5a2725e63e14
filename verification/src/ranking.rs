//! Ordered selection: the first `limit` positions of a list under a
//! lexicographic key, ties broken by position.
use vstd::prelude::*;

verus! {

/// A sort key, compared lexicographically; smaller keys come first.
#[derive(Clone, Copy, Debug)]
pub struct RankKey {
    pub primary: i128,
    pub secondary: i128,
    pub tertiary: i128,
}

pub open spec fn key_lt(a: RankKey, b: RankKey) -> bool {
    a.primary < b.primary || (a.primary == b.primary && (a.secondary < b.secondary || (
    a.secondary == b.secondary && a.tertiary < b.tertiary)))
}

pub open spec fn key_eq(a: RankKey, b: RankKey) -> bool {
    a.primary == b.primary && a.secondary == b.secondary && a.tertiary == b.tertiary
}

/// Whether position `p` comes before position `q`: a smaller key, or an
/// equal key at an earlier position.
pub open spec fn ranks_before(keys: Seq<RankKey>, p: int, q: int) -> bool {
    key_lt(keys[p], keys[q]) || (key_eq(keys[p], keys[q]) && p < q)
}

pub open spec fn min_nat(a: nat, b: nat) -> nat {
    if a <= b {
        a
    } else {
        b
    }
}

/// `r` lists, in order, the first `limit` positions of `keys`.
pub open spec fn is_top_ranked(keys: Seq<RankKey>, limit: nat, r: Seq<int>) -> bool {
    &&& r.len() == min_nat(limit, keys.len())
    &&& forall|i: int| 0 <= i < r.len() ==> 0 <= #[trigger] r[i] < keys.len()
    &&& forall|i: int, j: int| 0 <= i < j < r.len() ==> ranks_before(keys, #[trigger] r[i], #[trigger] r[j])
    &&& forall|p: int, i: int|
        #![trigger r.contains(p), r[i]]
        0 <= p < keys.len() && !r.contains(p) && 0 <= i < r.len() ==> ranks_before(
            keys,
            r[i],
            p,
        )
}

/// Decides [`ranks_before`].
pub fn before(keys: &Vec<RankKey>, p: usize, q: usize) -> (b: bool)
    requires
        p < keys@.len(),
        q < keys@.len(),
    ensures
        b == ranks_before(keys@, p as int, q as int),
{
    let a = keys[p];
    let c = keys[q];
    if a.primary != c.primary {
        a.primary < c.primary
    } else if a.secondary != c.secondary {
        a.secondary < c.secondary
    } else if a.tertiary != c.tertiary {
        a.tertiary < c.tertiary
    } else {
        p < q
    }
}

pub open spec fn as_ints(v: Seq<usize>) -> Seq<int> {
    v.map_values(|x: usize| x as int)
}

/// A finite list of items with a strict total order on their positions.
pub trait Ranking {
    spec fn size(&self) -> nat;

    spec fn precedes(&self, p: int, q: int) -> bool;

    fn count(&self) -> (n: usize)
        ensures
            n == self.size(),
    ;

    fn comes_before(&self, p: usize, q: usize) -> (b: bool)
        requires
            p < self.size(),
            q < self.size(),
        ensures
            b == self.precedes(p as int, q as int),
    ;

    proof fn lemma_transitive(&self, a: int, b: int, c: int)
        requires
            self.precedes(a, b),
            self.precedes(b, c),
        ensures
            self.precedes(a, c),
    ;

    proof fn lemma_total(&self, a: int, b: int)
        requires
            a != b,
        ensures
            self.precedes(a, b) || self.precedes(b, a),
    ;
}

/// `r` lists, in order, the first `limit` positions of `items`.
pub open spec fn is_top_by<R: Ranking>(items: &R, limit: nat, r: Seq<int>) -> bool {
    &&& r.len() == min_nat(limit, items.size())
    &&& forall|i: int| 0 <= i < r.len() ==> 0 <= #[trigger] r[i] < items.size()
    &&& forall|i: int, j: int| 0 <= i < j < r.len() ==> items.precedes(#[trigger] r[i], #[trigger] r[j])
    &&& forall|p: int, i: int|
        #![trigger r.contains(p), r[i]]
        0 <= p < items.size() && !r.contains(p) && 0 <= i < r.len() ==> items.precedes(r[i], p)
}

impl Ranking for Vec<RankKey> {
    open spec fn size(&self) -> nat {
        self@.len()
    }

    open spec fn precedes(&self, p: int, q: int) -> bool {
        ranks_before(self@, p, q)
    }

    fn count(&self) -> (n: usize) {
        self.len()
    }

    fn comes_before(&self, p: usize, q: usize) -> (b: bool) {
        before(self, p, q)
    }

    proof fn lemma_transitive(&self, a: int, b: int, c: int) {
    }

    proof fn lemma_total(&self, a: int, b: int) {
    }
}

/// The first `limit` positions of `keys` in rank order.
pub fn top_ranked(keys: &Vec<RankKey>, limit: usize) -> (r: Vec<usize>)
    ensures
        is_top_ranked(keys@, limit as nat, as_ints(r@)),
{
    top_by(keys, limit)
}

/// The first `limit` positions of `items` in their order.
pub fn top_by<R: Ranking>(items: &R, limit: usize) -> (r: Vec<usize>)
    ensures
        is_top_by(items, limit as nat, as_ints(r@)),
{
    let mut r: Vec<usize> = Vec::new();
    let mut p: usize = 0;
    while p < items.count()
        invariant
            p <= items.size(),
            r@.len() == min_nat(limit as nat, p as nat),
            forall|i: int| 0 <= i < r@.len() ==> (#[trigger] r@[i] as int) < p,
            forall|i: int, j: int|
                0 <= i < j < r@.len() ==> items.precedes(#[trigger] r@[i] as int, #[trigger] r@[j] as int),
            forall|q: int, i: int|
                #![trigger as_ints(r@).contains(q), r@[i]]
                0 <= q < p && !as_ints(r@).contains(q) && 0 <= i < r@.len() ==> items.precedes(r@[i] as int,
                    q,
                ),
            p <= limit ==> forall|q: int| 0 <= q < p ==> #[trigger] as_ints(r@).contains(q),
        decreases items.size() - p,
    {
        let ghost old_r = r@;
        let n = r.len();
        if n < limit || (n > 0 && items.comes_before(p, r[n - 1])) {
            let mut j: usize = 0;
            while j < r.len() && items.comes_before(r[j], p)
                invariant
                    j <= r@.len(),
                    r@ == old_r,
                    p < items.size(),
                    forall|i: int| 0 <= i < r@.len() ==> (#[trigger] r@[i] as int) < p,
                    forall|x: int| 0 <= x < j ==> items.precedes(#[trigger] r@[x] as int, p as int),
                decreases r@.len() - j,
            {
                j += 1;
            }
            proof {
                if j < old_r.len() {
                    items.lemma_total(old_r[j as int] as int, p as int);
                    assert forall|x: int| j <= x < old_r.len() implies items.precedes(p as int, #[trigger] old_r[x] as int) by {
                        if x > j {
                            assert(items.precedes(old_r[j as int] as int, old_r[x] as int));
                            items.lemma_transitive(p as int, old_r[j as int] as int, old_r[x] as int);
                        }
                    }
                }
            }
            r.insert(j, p);
            let ghost ins = r@;
            assert(ins == old_r.insert(j as int, p));
            proof {
                assert forall|a: int, b: int| 0 <= a < b < ins.len() implies items.precedes(#[trigger] ins[a] as int, #[trigger] ins[b] as int) by {
                    if b < j {
                    } else if b == j {
                    } else if a < j {
                        assert(ins[b] == old_r[b - 1]);
                        if j < old_r.len() {
                            items.lemma_transitive(ins[a] as int, p as int, ins[b] as int);
                        }
                    } else if a == j {
                        assert(ins[b] == old_r[b - 1]);
                    } else {
                        assert(ins[a] == old_r[a - 1]);
                        assert(ins[b] == old_r[b - 1]);
                    }
                }
            }
            if r.len() > limit {
                let ghost last = r@[r@.len() - 1];
                r.pop();
                proof {
                    assert forall|q: int, i: int|
                        #![trigger as_ints(r@).contains(q), r@[i]]
                        0 <= q < p + 1 && !as_ints(r@).contains(q) && 0 <= i < r@.len() implies items.precedes(r@[i] as int,
                            q,
                        ) by {
                        assert(r@[i] == ins[i]);
                        if q == last as int {
                            assert(items.precedes(ins[i] as int, ins[ins.len() - 1] as int));
                        } else {
                            assert(!as_ints(old_r).contains(q) || q == p) by {
                                if as_ints(old_r).contains(q) {
                                    let x = choose|x: int| 0 <= x < as_ints(old_r).len() && as_ints(old_r)[x] == q;
                                    let y = if x < j { x } else { x + 1 };
                                    assert(ins[y] == old_r[x]);
                                    if y < r@.len() {
                                        assert(as_ints(r@)[y] == q);
                                    }
                                }
                            }
                            if q == p {
                                assert(as_ints(r@)[j as int] == q);
                            } else {
                                // q was excluded before and every kept entry ranks before the dropped last
                                assert(old_r.len() == limit);
                                assert(items.precedes(old_r[old_r.len() - 1] as int, q));
                                if j < old_r.len() {
                                    assert(items.precedes(ins[i] as int, ins[ins.len() - 1] as int));
                                    assert(ins[ins.len() - 1] == old_r[old_r.len() - 1]);
                                    items.lemma_transitive(ins[i] as int, old_r[old_r.len() - 1] as int, q);
                                } else {
                                    assert(r@[i] == old_r[i]);
                                    assert(items.precedes(old_r[i] as int, q));
                                }
                            }
                        }
                    }
                }
            } else {
                proof {
                    assert(p < limit);
                    assert forall|q: int| 0 <= q < p + 1 implies #[trigger] as_ints(r@).contains(q) by {
                        if q == p {
                            assert(as_ints(r@)[j as int] == q);
                        } else {
                            assert(as_ints(old_r).contains(q));
                            let x = choose|x: int| 0 <= x < as_ints(old_r).len() && as_ints(old_r)[x] == q;
                            let y = if x < j { x } else { x + 1 };
                            assert(ins[y] == old_r[x]);
                            assert(as_ints(r@)[y] == q);
                        }
                    }
                    assert forall|q: int, i: int|
                        #![trigger as_ints(r@).contains(q), r@[i]]
                        0 <= q < p + 1 && !as_ints(r@).contains(q) && 0 <= i < r@.len() implies items.precedes(r@[i] as int,
                            q,
                        ) by {
                        if q == p {
                            assert(as_ints(r@)[j as int] == q);
                        } else {
                            assert(as_ints(old_r).contains(q));
                            let x = choose|x: int| 0 <= x < as_ints(old_r).len() && as_ints(old_r)[x] == q;
                            let y = if x < j { x } else { x + 1 };
                            assert(ins[y] == old_r[x]);
                            assert(as_ints(r@)[y] == q);
                        }
                    }
                }
            }
        } else {
            proof {
                assert forall|q: int, i: int|
                    #![trigger as_ints(r@).contains(q), r@[i]]
                    0 <= q < p + 1 && !as_ints(r@).contains(q) && 0 <= i < r@.len() implies items.precedes(r@[i] as int,
                        q,
                    ) by {
                    if q == p {
                        let last = r@[r@.len() - 1] as int;
                        items.lemma_total(last, p as int);
                        if i < r@.len() - 1 {
                            items.lemma_transitive(r@[i] as int, last, p as int);
                        }
                    }
                }
            }
        }
        p += 1;
    }
    assert(as_ints(r@).len() == r@.len());
    r
}


/// Position `p` comes before `q` when its text sorts first by bytes, or
/// the texts are equal and `p` is earlier.
pub open spec fn text_precedes(keys: Seq<Seq<char>>, p: int, q: int) -> bool {
    crate::text::bytes_lt(crate::text::text_bytes(keys[p]), crate::text::text_bytes(keys[q])) || (
    crate::text::text_bytes(keys[p]) == crate::text::text_bytes(keys[q]) && p < q)
}

/// `r` lists, in order, the first `limit` positions of `keys` in text order.
pub open spec fn is_top_text(keys: Seq<Seq<char>>, limit: nat, r: Seq<int>) -> bool {
    &&& r.len() == min_nat(limit, keys.len())
    &&& forall|i: int| 0 <= i < r.len() ==> 0 <= #[trigger] r[i] < keys.len()
    &&& forall|i: int, j: int| 0 <= i < j < r.len() ==> text_precedes(keys, #[trigger] r[i], #[trigger] r[j])
    &&& forall|p: int, i: int|
        #![trigger r.contains(p), r[i]]
        0 <= p < keys.len() && !r.contains(p) && 0 <= i < r.len() ==> text_precedes(keys, r[i], p)
}

/// Texts ordered by their bytes, ties broken by position.
pub struct TextKeys {
    pub keys: Vec<String>,
}

impl TextKeys {
    pub open spec fn bytes_at(&self, p: int) -> Seq<u8> {
        crate::text::text_bytes(crate::text::texts(self.keys@)[p])
    }
}

impl Ranking for TextKeys {
    open spec fn size(&self) -> nat {
        self.keys@.len()
    }

    open spec fn precedes(&self, p: int, q: int) -> bool {
        text_precedes(crate::text::texts(self.keys@), p, q)
    }

    fn count(&self) -> (n: usize) {
        self.keys.len()
    }

    fn comes_before(&self, p: usize, q: usize) -> (b: bool) {
        let a = self.keys[p].as_str();
        let c = self.keys[q].as_str();
        if crate::text::text_less(a, c) {
            true
        } else if crate::text::text_less(c, a) {
            false
        } else {
            proof {
                crate::text::lemma_bytes_lt_total(self.bytes_at(p as int), self.bytes_at(q as int));
            }
            p < q
        }
    }

    proof fn lemma_transitive(&self, a: int, b: int, c: int) {
        if crate::text::bytes_lt(self.bytes_at(a), self.bytes_at(b)) && crate::text::bytes_lt(
            self.bytes_at(b),
            self.bytes_at(c),
        ) {
            crate::text::lemma_bytes_lt_transitive(self.bytes_at(a), self.bytes_at(b), self.bytes_at(c));
        }
    }

    proof fn lemma_total(&self, a: int, b: int) {
        crate::text::lemma_bytes_lt_total(self.bytes_at(a), self.bytes_at(b));
    }
}

/// The first `limit` positions of `keys` in text order.
pub fn top_text(keys: &TextKeys, limit: usize) -> (r: Vec<usize>)
    ensures
        is_top_text(crate::text::texts(keys.keys@), limit as nat, as_ints(r@)),
{
    top_by(keys, limit)
}

/// `n` distinct positions below `n` are all the positions below `n`.
pub proof fn lemma_distinct_positions_cover(r: Seq<int>, n: nat, p: int)
    requires
        r.len() == n,
        forall|i: int| 0 <= i < r.len() ==> 0 <= #[trigger] r[i] < n,
        r.no_duplicates(),
        0 <= p < n,
    ensures
        r.contains(p),
{
    r.unique_seq_to_set();
    let full = vstd::set_lib::set_int_range(0, n as int);
    vstd::set_lib::lemma_int_range(0, n as int);
    assert(r.to_set().subset_of(full)) by {
        assert forall|x: int| r.to_set().contains(x) implies full.contains(x) by {
            assert(r.contains(x));
        }
    }
    vstd::set_lib::lemma_len_subset(r.to_set(), full);
    vstd::set_lib::lemma_subset_equality(r.to_set(), full);
    assert(full.contains(p));
    assert(r.to_set().contains(p));
}

/// A ranking of all positions lists every position.
pub proof fn lemma_top_ranked_covers(keys: Seq<RankKey>, r: Seq<int>, p: int)
    requires
        is_top_ranked(keys, keys.len(), r),
        0 <= p < keys.len(),
    ensures
        r.contains(p),
{
    assert(r.no_duplicates()) by {
        assert forall|i: int, j: int|
            0 <= i < r.len() && 0 <= j < r.len() && i != j implies r[i] != r[j] by {
            if i < j {
                assert(ranks_before(keys, r[i], r[j]));
            } else {
                assert(ranks_before(keys, r[j], r[i]));
            }
        }
    }
    lemma_distinct_positions_cover(r, keys.len(), p);
}

/// A text ranking of all positions lists every position.
pub proof fn lemma_top_text_covers(keys: Seq<Seq<char>>, r: Seq<int>, p: int)
    requires
        is_top_text(keys, keys.len(), r),
        0 <= p < keys.len(),
    ensures
        r.contains(p),
{
    assert(r.no_duplicates()) by {
        assert forall|i: int, j: int|
            0 <= i < r.len() && 0 <= j < r.len() && i != j implies r[i] != r[j] by {
            if i < j {
                assert(text_precedes(keys, r[i], r[j]));
            } else {
                assert(text_precedes(keys, r[j], r[i]));
            }
            if r[i] == r[j] {
                crate::text::lemma_bytes_lt_irreflexive(crate::text::text_bytes(keys[r[i]]));
            }
        }
    }
    lemma_distinct_positions_cover(r, keys.len(), p);
}

} // verus!

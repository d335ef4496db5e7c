use vstd::prelude::*;

verus! {

/// The sign bit of an IEEE-754 double.
pub const SIGN_BIT: u64 = 0x8000_0000_0000_0000;

/// Position of an IEEE-754 double, given by its bit pattern, in the numeric
/// order of doubles. For non-NaN values, `a < b` exactly when the key of `a`
/// is below the key of `b`, and the two zeros share one key.
pub open spec fn order_key_of(bits: u64) -> u64 {
    if bits == SIGN_BIT {
        SIGN_BIT
    } else if bits & SIGN_BIT != 0 {
        !bits
    } else {
        bits | SIGN_BIT
    }
}

/// The values, by bit pattern, ascend in numeric order.
pub open spec fn ascending(s: Seq<u64>) -> bool {
    forall|i: int, j: int| 0 <= i <= j < s.len() ==> order_key_of(s[i]) <= order_key_of(s[j])
}

/// Ordering key of a double's bit pattern.
pub fn order_key(bits: u64) -> (r: u64)
    ensures
        r == order_key_of(bits),
{
    if bits == SIGN_BIT {
        SIGN_BIT
    } else if bits & SIGN_BIT != 0 {
        !bits
    } else {
        bits | SIGN_BIT
    }
}

/// Relies on `slice::sort_by_key`: the slice is rearranged so that the keys
/// ascend, keeping the same elements.
#[verifier::external_body]
fn sort_by_order_key(v: &mut Vec<u64>)
    ensures
        final(v)@.to_multiset() == old(v)@.to_multiset(),
        ascending(final(v)@),
{
    v.sort_by_key(|b| order_key(*b))
}

/// The known zeta zeros of a run, as bit patterns of doubles in ascending
/// numeric order. Built once and only read afterwards.
pub struct ZeroCatalog {
    entries: Vec<u64>,
}

impl View for ZeroCatalog {
    type V = Seq<u64>;

    closed spec fn view(&self) -> Seq<u64> {
        self.entries@
    }
}

impl ZeroCatalog {
    pub open spec fn wf(&self) -> bool {
        ascending(self@)
    }

    /// Builds the catalog from the values read, in any order.
    pub fn from_bits(values: Vec<u64>) -> (r: ZeroCatalog)
        ensures
            r.wf(),
            r@.to_multiset() == values@.to_multiset(),
    {
        let mut entries = values;
        sort_by_order_key(&mut entries);
        ZeroCatalog { entries }
    }

    pub fn len(&self) -> (r: usize)
        ensures
            r == self@.len(),
    {
        self.entries.len()
    }

    /// Bit pattern of the zero at position `i`.
    pub fn get(&self, i: usize) -> (r: u64)
        requires
            i < self@.len(),
        ensures
            r == self@[i as int],
    {
        self.entries[i]
    }

    /// The insertion point of `target`: the first position whose zero is not
    /// below it, or the length where there is none.
    pub fn insertion_point(&self, target: u64) -> (r: usize)
        requires
            self.wf(),
        ensures
            r <= self@.len(),
            forall|i: int| 0 <= i < r ==> order_key_of(#[trigger] self@[i]) < order_key_of(target),
            forall|i: int|
                r <= i < self@.len() ==> order_key_of(#[trigger] self@[i]) >= order_key_of(target),
    {
        let key = order_key(target);
        let mut lo: usize = 0;
        let mut hi: usize = self.entries.len();
        while lo < hi
            invariant
                lo <= hi <= self@.len(),
                self.wf(),
                key == order_key_of(target),
                forall|i: int| 0 <= i < lo ==> order_key_of(#[trigger] self@[i]) < key,
                forall|i: int| hi <= i < self@.len() ==> order_key_of(#[trigger] self@[i]) >= key,
            decreases hi - lo,
        {
            let mid = lo + (hi - lo) / 2;
            if order_key(self.entries[mid]) < key {
                assert forall|i: int| 0 <= i < mid + 1 implies order_key_of(#[trigger] self@[i]) < key by {
                    assert(order_key_of(self@[i]) <= order_key_of(self@[mid as int]));
                }
                lo = mid + 1;
            } else {
                assert forall|i: int| mid <= i < self@.len() implies order_key_of(#[trigger] self@[i]) >= key by {
                    assert(order_key_of(self@[mid as int]) <= order_key_of(self@[i]));
                }
                hi = mid;
            }
        }
        lo
    }

    /// The zero that a value is held against: the one at its insertion
    /// point. The zero just before that point is never the answer, even
    /// where it lies nearer.
    pub fn successor(&self, target: u64) -> (r: Option<u64>)
        requires
            self.wf(),
        ensures
            r == successor_of(self@, target),
    {
        let i = self.insertion_point(target);
        proof {
            lemma_insertion_point_unique(self@, target, i as int, first_not_below(self@, target));
        }
        if i < self.entries.len() {
            Some(self.entries[i])
        } else {
            None
        }
    }
}

/// `i` splits `s` into the entries below `target` and those not below it.
pub open spec fn splits_at(s: Seq<u64>, target: u64, i: int) -> bool {
    &&& 0 <= i <= s.len()
    &&& forall|j: int| 0 <= j < i ==> order_key_of(#[trigger] s[j]) < order_key_of(target)
    &&& forall|j: int| i <= j < s.len() ==> order_key_of(#[trigger] s[j]) >= order_key_of(target)
}

/// Number of leading entries of `s` that lie below `target`.
pub open spec fn first_not_below(s: Seq<u64>, target: u64) -> int
    decreases s.len(),
{
    if s.len() == 0 {
        0
    } else if order_key_of(s[0]) >= order_key_of(target) {
        0
    } else {
        1 + first_not_below(s.drop_first(), target)
    }
}

/// The entry at the insertion point of `target`, if there is one.
pub open spec fn successor_of(s: Seq<u64>, target: u64) -> Option<u64> {
    let i = first_not_below(s, target);
    if i < s.len() {
        Some(s[i])
    } else {
        None
    }
}

proof fn lemma_first_not_below_splits(s: Seq<u64>, target: u64)
    requires
        ascending(s),
    ensures
        splits_at(s, target, first_not_below(s, target)),
    decreases s.len(),
{
    if s.len() > 0 && order_key_of(s[0]) < order_key_of(target) {
        let t = s.drop_first();
        assert forall|i: int, j: int| 0 <= i <= j < t.len() implies order_key_of(t[i]) <= order_key_of(t[j]) by {
            assert(t[i] == s[i + 1] && t[j] == s[j + 1]);
        }
        lemma_first_not_below_splits(t, target);
        let k = first_not_below(t, target);
        assert forall|j: int| 0 <= j < k + 1 implies order_key_of(#[trigger] s[j]) < order_key_of(target) by {
            if j > 0 {
                assert(s[j] == t[j - 1]);
            }
        }
        assert forall|j: int| k + 1 <= j < s.len() implies order_key_of(#[trigger] s[j]) >= order_key_of(target) by {
            assert(s[j] == t[j - 1]);
        }
    } else if s.len() > 0 {
        assert forall|j: int| 0 <= j < s.len() implies order_key_of(#[trigger] s[j]) >= order_key_of(target) by {
            assert(order_key_of(s[0]) <= order_key_of(s[j]));
        }
    }
}

/// In an ascending catalog the insertion point is determined by the target
/// alone: two positions that both split it are the same.
pub proof fn lemma_insertion_point_unique(s: Seq<u64>, target: u64, i: int, j: int)
    requires
        ascending(s),
        splits_at(s, target, i),
        j == first_not_below(s, target),
    ensures
        i == j,
{
    lemma_first_not_below_splits(s, target);
    if i < j {
        assert(order_key_of(s[i]) < order_key_of(target));
    } else if j < i {
        assert(order_key_of(s[j]) < order_key_of(target));
    }
}

proof fn lemma_ascending_keys_agree(a: Seq<u64>, b: Seq<u64>)
    requires
        ascending(a),
        ascending(b),
        a.to_multiset() == b.to_multiset(),
    ensures
        a.len() == b.len(),
        forall|i: int| 0 <= i < a.len() ==> order_key_of(#[trigger] a[i]) == order_key_of(b[i]),
    decreases a.len(),
{
    a.to_multiset_ensures();
    b.to_multiset_ensures();
    if a.len() > 0 {
        assert(a.contains(a[0]));
        assert(a.to_multiset().count(a[0]) > 0);
        assert(b.to_multiset().count(a[0]) > 0);
        assert(b.contains(a[0]));
        let j = choose|j: int| 0 <= j < b.len() && b[j] == a[0];
        assert(b.contains(b[0]));
        assert(b.to_multiset().count(b[0]) > 0);
        assert(a.to_multiset().count(b[0]) > 0);
        assert(a.contains(b[0]));
        let i0 = choose|i: int| 0 <= i < a.len() && a[i] == b[0];
        assert(order_key_of(a[0]) <= order_key_of(a[i0]));
        assert(order_key_of(b[0]) <= order_key_of(b[j]));
        let a2 = a.remove(0);
        let b2 = b.remove(j);
        assert(a2.to_multiset() == b2.to_multiset());
        assert forall|p: int, q: int| 0 <= p <= q < b2.len() implies order_key_of(b2[p])
            <= order_key_of(b2[q]) by {
            let pb = if p < j { p } else { p + 1 };
            let qb = if q < j { q } else { q + 1 };
            assert(b2[p] == b[pb] && b2[q] == b[qb]);
        }
        assert forall|p: int, q: int| 0 <= p <= q < a2.len() implies order_key_of(a2[p])
            <= order_key_of(a2[q]) by {
            assert(a2[p] == a[p + 1] && a2[q] == a[q + 1]);
        }
        lemma_ascending_keys_agree(a2, b2);
        assert forall|i: int| 0 <= i < a.len() implies order_key_of(#[trigger] a[i])
            == order_key_of(b[i]) by {
            if i > 0 {
                assert(a[i] == a2[i - 1]);
                if i - 1 >= j {
                    assert(b2[i - 1] == b[i]);
                } else {
                    assert(b2[i - 1] == b[i - 1]);
                    assert(order_key_of(b[0]) <= order_key_of(b[i - 1]));
                    assert(order_key_of(b[i]) <= order_key_of(b[j]));
                    assert(order_key_of(b[i - 1]) <= order_key_of(b[i]));
                }
            }
        }
    }
}

proof fn lemma_first_not_below_by_keys(a: Seq<u64>, b: Seq<u64>, target: u64)
    requires
        a.len() == b.len(),
        forall|i: int| 0 <= i < a.len() ==> order_key_of(#[trigger] a[i]) == order_key_of(b[i]),
    ensures
        first_not_below(a, target) == first_not_below(b, target),
    decreases a.len(),
{
    if a.len() > 0 {
        assert(order_key_of(a[0]) == order_key_of(b[0]));
        assert forall|i: int| 0 <= i < a.len() - 1 implies order_key_of(
            #[trigger] a.drop_first()[i],
        ) == order_key_of(b.drop_first()[i]) by {
            assert(order_key_of(a[i + 1]) == order_key_of(b[i + 1]));
        }
        lemma_first_not_below_by_keys(a.drop_first(), b.drop_first(), target);
    }
}

/// The order in which the zeros were read changes no lookup: two ascending
/// catalogs of the same values hold a value against zeros of the same
/// numeric value, or both against none.
pub proof fn lemma_lookup_ignores_read_order(a: Seq<u64>, b: Seq<u64>, target: u64)
    requires
        ascending(a),
        ascending(b),
        a.to_multiset() == b.to_multiset(),
    ensures
        successor_of(a, target) is Some <==> successor_of(b, target) is Some,
        successor_of(a, target) is Some ==> order_key_of(successor_of(a, target).unwrap())
            == order_key_of(successor_of(b, target).unwrap()),
{
    lemma_ascending_keys_agree(a, b);
    lemma_first_not_below_by_keys(a, b, target);
    lemma_first_not_below_splits(a, target);
}

} // verus!

//! The popularity order of the dictionary, and a stable sort by it.
//!
//! Higher counts come first; at equal count canonical keys come before
//! aliases; remaining ties go to the lower entry index.
use vstd::prelude::*;

verus! {

broadcast use vstd::seq_lib::group_to_multiset_ensures;

/// The sort key of an indexed key or of a haystack key.
#[derive(Clone, Copy, Debug, PartialEq, Eq, Structural)]
pub struct ScoreableEntry {
    pub index: usize,
    pub is_canonical: bool,
    pub count: i64,
}

/// Whether `a` sorts strictly before `b`: count descending, canonical first,
/// index ascending.
pub open spec fn precedes(a: ScoreableEntry, b: ScoreableEntry) -> bool {
    a.count > b.count || (a.count == b.count && ((a.is_canonical && !b.is_canonical) || (
    a.is_canonical == b.is_canonical && a.index < b.index)))
}

/// The place of a key in the order, as one integer: `precedes(a, b)` exactly when
/// `rank_of(a) < rank_of(b)`.
pub open spec fn rank_of(a: ScoreableEntry) -> int {
    (0x8000_0000_0000_0000 - a.count) * 0x2_0000_0000_0000_0000 + (if a.is_canonical {
        0int
    } else {
        1int
    }) * 0x1_0000_0000_0000_0000 + a.index
}

pub proof fn lemma_rank_of(a: ScoreableEntry, b: ScoreableEntry)
    ensures
        precedes(a, b) <==> rank_of(a) < rank_of(b),
        rank_of(a) == rank_of(b) <==> a == b,
{
}

pub open spec fn order_of(a: ScoreableEntry, b: ScoreableEntry) -> Option<core::cmp::Ordering> {
    if precedes(a, b) {
        Some(core::cmp::Ordering::Less)
    } else if precedes(b, a) {
        Some(core::cmp::Ordering::Greater)
    } else {
        Some(core::cmp::Ordering::Equal)
    }
}

impl ScoreableEntry {
    /// Whether `self` sorts strictly before `other`.
    pub fn sorts_before(&self, other: &ScoreableEntry) -> (r: bool)
        ensures
            r == precedes(*self, *other),
    {
        self.count > other.count || (self.count == other.count && ((self.is_canonical
            && !other.is_canonical) || (self.is_canonical == other.is_canonical && self.index
            < other.index)))
    }
}

impl PartialOrd for ScoreableEntry {
    fn partial_cmp(&self, other: &ScoreableEntry) -> (r: Option<core::cmp::Ordering>) {
        if self.sorts_before(other) {
            Some(core::cmp::Ordering::Less)
        } else if other.sorts_before(self) {
            Some(core::cmp::Ordering::Greater)
        } else {
            Some(core::cmp::Ordering::Equal)
        }
    }
}

impl vstd::std_specs::cmp::PartialOrdSpecImpl for ScoreableEntry {
    open spec fn obeys_partial_cmp_spec() -> bool {
        true
    }

    open spec fn partial_cmp_spec(&self, other: &ScoreableEntry) -> Option<core::cmp::Ordering> {
        order_of(*self, *other)
    }
}

/// Inserts `x` before the first item whose key does not sort before it.
pub open spec fn ranked_insert<T>(s: Seq<(ScoreableEntry, T)>, x: (ScoreableEntry, T)) -> Seq<
    (ScoreableEntry, T),
>
    decreases s.len(),
{
    if s.len() == 0 {
        seq![x]
    } else if rank_of(x.0) <= rank_of(s[0].0) {
        seq![x] + s
    } else {
        seq![s[0]] + ranked_insert(s.drop_first(), x)
    }
}

/// The items of `s` sorted by their keys; items with equal keys keep their order.
pub open spec fn ranked_sort<T>(s: Seq<(ScoreableEntry, T)>) -> Seq<(ScoreableEntry, T)>
    decreases s.len(),
{
    if s.len() == 0 {
        Seq::empty()
    } else {
        ranked_insert(ranked_sort(s.drop_first()), s[0])
    }
}

/// Whether no item sorts strictly before an item that comes earlier.
pub open spec fn is_ranked<T>(s: Seq<(ScoreableEntry, T)>) -> bool {
    forall|i: int, j: int| 0 <= i < j < s.len() ==> !precedes(#[trigger] s[j].0, #[trigger] s[i].0)
}

proof fn lemma_insert_contents<T>(s: Seq<(ScoreableEntry, T)>, x: (ScoreableEntry, T))
    ensures
        ranked_insert(s, x).to_multiset() == s.to_multiset().insert(x),
        ranked_insert(s, x).len() == s.len() + 1,
    decreases s.len(),
{
    if s.len() == 0 {
        assert(seq![x] =~= Seq::<(ScoreableEntry, T)>::empty().push(x));
    } else if rank_of(x.0) <= rank_of(s[0].0) {
        vstd::seq_lib::lemma_multiset_commutative(seq![x], s);
        assert(seq![x] =~= Seq::<(ScoreableEntry, T)>::empty().push(x));
        assert(s.to_multiset().insert(x) =~= seq![x].to_multiset().add(s.to_multiset()));
    } else {
        let t = s.drop_first();
        lemma_insert_contents(t, x);
        vstd::seq_lib::lemma_multiset_commutative(seq![s[0]], ranked_insert(t, x));
        vstd::seq_lib::lemma_multiset_commutative(seq![s[0]], t);
        assert(seq![s[0]] + t =~= s);
        assert(seq![s[0]] =~= Seq::<(ScoreableEntry, T)>::empty().push(s[0]));
        assert(s.to_multiset().insert(x) =~= seq![s[0]].to_multiset().add(
            t.to_multiset().insert(x),
        ));
    }
}

proof fn lemma_insert_ranked<T>(s: Seq<(ScoreableEntry, T)>, x: (ScoreableEntry, T))
    requires
        is_ranked(s),
    ensures
        is_ranked(ranked_insert(s, x)),
    decreases s.len(),
{
    if s.len() == 0 {
    } else if rank_of(x.0) <= rank_of(s[0].0) {
        let r = seq![x] + s;
        assert forall|i: int, j: int| 0 <= i < j < r.len() implies !precedes(
            #[trigger] r[j].0,
            #[trigger] r[i].0,
        ) by {
            lemma_rank_of(r[j].0, r[i].0);
            if i == 0 {
                if j > 1 {
                    lemma_rank_of(s[j - 1].0, s[0].0);
                }
            } else {
                assert(r[i] == s[i - 1] && r[j] == s[j - 1]);
            }
        }
    } else {
        let t = s.drop_first();
        assert(is_ranked(t)) by {
            assert forall|i: int, j: int| 0 <= i < j < t.len() implies !precedes(
                #[trigger] t[j].0,
                #[trigger] t[i].0,
            ) by {
                assert(t[i] == s[i + 1] && t[j] == s[j + 1]);
            }
        }
        lemma_insert_ranked(t, x);
        lemma_insert_contents(t, x);
        let u = ranked_insert(t, x);
        let r = seq![s[0]] + u;
        assert forall|i: int, j: int| 0 <= i < j < r.len() implies !precedes(
            #[trigger] r[j].0,
            #[trigger] r[i].0,
        ) by {
            if i == 0 {
                let y = u[j - 1];
                assert(u.to_multiset().count(y) > 0);
                assert(r[j] == y);
                lemma_rank_of(y.0, s[0].0);
                if y != x {
                    assert(t.to_multiset().count(y) > 0);
                    let k = choose|k: int| 0 <= k < t.len() && t[k] == y;
                    assert(s[k + 1] == y);
                    assert(!precedes(s[k + 1].0, s[0].0));
                }
            } else {
                assert(r[i] == u[i - 1] && r[j] == u[j - 1]);
            }
        }
    }
}

/// The sort keeps the items and orders them by key.
pub proof fn lemma_ranked_sort<T>(s: Seq<(ScoreableEntry, T)>)
    ensures
        ranked_sort(s).to_multiset() == s.to_multiset(),
        ranked_sort(s).len() == s.len(),
        is_ranked(ranked_sort(s)),
    decreases s.len(),
{
    if s.len() > 0 {
        let t = s.drop_first();
        lemma_ranked_sort(t);
        lemma_insert_contents(ranked_sort(t), s[0]);
        lemma_insert_ranked(ranked_sort(t), s[0]);
        assert(seq![s[0]] + t =~= s);
        vstd::seq_lib::lemma_multiset_commutative(seq![s[0]], t);
        assert(seq![s[0]] =~= Seq::<(ScoreableEntry, T)>::empty().push(s[0]));
        assert(s.to_multiset() =~= t.to_multiset().insert(s[0]));
    }
}

/// The sort neither adds nor drops an item.
pub proof fn lemma_ranked_sort_members<T>(s: Seq<(ScoreableEntry, T)>)
    ensures
        forall|i: int| 0 <= i < ranked_sort(s).len() ==> s.contains(#[trigger] ranked_sort(s)[i]),
        forall|x: (ScoreableEntry, T)| s.contains(x) ==> ranked_sort(s).contains(x),
        ranked_sort(s).len() == s.len(),
{
    lemma_ranked_sort(s);
    assert forall|i: int| 0 <= i < ranked_sort(s).len() implies s.contains(
        #[trigger] ranked_sort(s)[i],
    ) by {
        assert(ranked_sort(s).to_multiset().count(ranked_sort(s)[i]) > 0);
    }
    assert forall|x: (ScoreableEntry, T)| s.contains(x) implies ranked_sort(s).contains(x) by {
        assert(s.to_multiset().count(x) > 0);
    }
}

proof fn lemma_insert_unique<T>(s: Seq<(ScoreableEntry, T)>, x: (ScoreableEntry, T))
    requires
        s.no_duplicates(),
        !s.contains(x),
    ensures
        ranked_insert(s, x).no_duplicates(),
    decreases s.len(),
{
    if s.len() > 0 && rank_of(x.0) > rank_of(s[0].0) {
        let t = s.drop_first();
        assert(!t.contains(x)) by {
            if t.contains(x) {
                let k = choose|k: int| 0 <= k < t.len() && t[k] == x;
                assert(s[k + 1] == x);
            }
        }
        assert(t.no_duplicates()) by {
            assert forall|i: int, j: int| 0 <= i < t.len() && 0 <= j < t.len() && i != j implies t[i]
                != t[j] by {
                assert(t[i] == s[i + 1] && t[j] == s[j + 1]);
            }
        }
        lemma_insert_unique(t, x);
        lemma_insert_contents(t, x);
        let u = ranked_insert(t, x);
        let r = seq![s[0]] + u;
        assert forall|i: int, j: int| 0 <= i < r.len() && 0 <= j < r.len() && i != j implies r[i]
            != r[j] by {
            if i == 0 || j == 0 {
                let k = if i == 0 { j } else { i };
                let y = u[k - 1];
                assert(r[k] == y);
                assert(u.to_multiset().count(y) > 0);
                if y != x {
                    assert(t.to_multiset().count(y) > 0);
                    let q = choose|q: int| 0 <= q < t.len() && t[q] == y;
                    assert(s[q + 1] == y);
                }
            } else {
                assert(r[i] == u[i - 1] && r[j] == u[j - 1]);
            }
        }
    } else if s.len() > 0 {
        let r = seq![x] + s;
        assert forall|i: int, j: int| 0 <= i < r.len() && 0 <= j < r.len() && i != j implies r[i]
            != r[j] by {
            if i > 0 && j > 0 {
                assert(r[i] == s[i - 1] && r[j] == s[j - 1]);
            } else if i == 0 {
                assert(r[j] == s[j - 1]);
            } else {
                assert(r[i] == s[i - 1]);
            }
        }
    }
}

/// Sorting items that are pairwise distinct gives items that are pairwise distinct.
pub proof fn lemma_ranked_sort_unique<T>(s: Seq<(ScoreableEntry, T)>)
    requires
        s.no_duplicates(),
    ensures
        ranked_sort(s).no_duplicates(),
    decreases s.len(),
{
    if s.len() > 0 {
        let t = s.drop_first();
        assert(t.no_duplicates()) by {
            assert forall|i: int, j: int| 0 <= i < t.len() && 0 <= j < t.len() && i != j implies t[i]
                != t[j] by {
                assert(t[i] == s[i + 1] && t[j] == s[j + 1]);
            }
        }
        lemma_ranked_sort_unique(t);
        lemma_ranked_sort(t);
        assert(!ranked_sort(t).contains(s[0])) by {
            if ranked_sort(t).contains(s[0]) {
                assert(ranked_sort(t).to_multiset().count(s[0]) > 0);
                assert(t.to_multiset().count(s[0]) > 0);
                let k = choose|k: int| 0 <= k < t.len() && t[k] == s[0];
                assert(s[k + 1] == s[0]);
            }
        }
        lemma_insert_unique(ranked_sort(t), s[0]);
    }
}

// ---------------------------------------------------------------- merge sort

/// Whether `a` comes strictly before `b` by key, then by tag.
pub open spec fn tag_lt<T>(a: (ScoreableEntry, (usize, T)), b: (ScoreableEntry, (usize, T))) -> bool {
    rank_of(a.0) < rank_of(b.0) || (rank_of(a.0) == rank_of(b.0) && a.1.0 < b.1.0)
}

pub open spec fn strictly_sorted<T>(s: Seq<(ScoreableEntry, (usize, T))>) -> bool {
    forall|i: int, j: int| 0 <= i < j < s.len() ==> tag_lt(#[trigger] s[i], #[trigger] s[j])
}

/// Items tagged with their positions.
pub open spec fn tagged<T>(s: Seq<(ScoreableEntry, T)>) -> Seq<(ScoreableEntry, (usize, T))> {
    Seq::new(s.len(), |i: int| (s[i].0, (i as usize, s[i].1)))
}

pub open spec fn untag<T>(x: (ScoreableEntry, (usize, T))) -> (ScoreableEntry, T) {
    (x.0, x.1.1)
}

pub open spec fn untagged<T>(s: Seq<(ScoreableEntry, (usize, T))>) -> Seq<(ScoreableEntry, T)> {
    s.map_values(|x: (ScoreableEntry, (usize, T))| untag(x))
}

proof fn lemma_insert_untagged<T>(s: Seq<(ScoreableEntry, (usize, T))>, x: (ScoreableEntry, (usize, T)))
    ensures
        untagged(ranked_insert(s, x)) == ranked_insert(untagged(s), untag(x)),
    decreases s.len(),
{
    if s.len() == 0 {
        assert(untagged(seq![x]) =~= seq![untag(x)]);
    } else if rank_of(x.0) <= rank_of(s[0].0) {
        assert(untagged(seq![x] + s) =~= seq![untag(x)] + untagged(s));
    } else {
        lemma_insert_untagged(s.drop_first(), x);
        assert(untagged(s).drop_first() =~= untagged(s.drop_first()));
        assert(untagged(seq![s[0]] + ranked_insert(s.drop_first(), x)) =~= seq![untag(s[0])]
            + untagged(ranked_insert(s.drop_first(), x)));
    }
}

proof fn lemma_sort_untagged<T>(s: Seq<(ScoreableEntry, (usize, T))>)
    ensures
        untagged(ranked_sort(s)) == ranked_sort(untagged(s)),
    decreases s.len(),
{
    if s.len() == 0 {
        assert(untagged(s) =~= Seq::<(ScoreableEntry, T)>::empty());
        assert(untagged(ranked_sort(s)) =~= Seq::<(ScoreableEntry, T)>::empty());
    } else {
        lemma_sort_untagged(s.drop_first());
        lemma_insert_untagged(ranked_sort(s.drop_first()), s[0]);
        assert(untagged(s).drop_first() =~= untagged(s.drop_first()));
    }
}

proof fn lemma_insert_strict<T>(s: Seq<(ScoreableEntry, (usize, T))>, x: (ScoreableEntry, (usize, T)))
    requires
        strictly_sorted(s),
        forall|k: int| 0 <= k < s.len() ==> x.1.0 < (#[trigger] s[k]).1.0,
    ensures
        strictly_sorted(ranked_insert(s, x)),
    decreases s.len(),
{
    lemma_insert_contents(s, x);
    if s.len() == 0 {
    } else if rank_of(x.0) <= rank_of(s[0].0) {
        let r = seq![x] + s;
        assert forall|i: int, j: int| 0 <= i < j < r.len() implies tag_lt(#[trigger] r[i], #[trigger] r[j]) by {
            if i == 0 {
                assert(r[j] == s[j - 1]);
                if j > 1 {
                    assert(tag_lt(s[0], s[j - 1]));
                }
            } else {
                assert(r[i] == s[i - 1] && r[j] == s[j - 1]);
            }
        }
    } else {
        let t = s.drop_first();
        assert(strictly_sorted(t)) by {
            assert forall|i: int, j: int| 0 <= i < j < t.len() implies tag_lt(#[trigger] t[i], #[trigger] t[j]) by {
                assert(t[i] == s[i + 1] && t[j] == s[j + 1]);
            }
        }
        assert forall|k: int| 0 <= k < t.len() implies x.1.0 < (#[trigger] t[k]).1.0 by {
            assert(t[k] == s[k + 1]);
        }
        lemma_insert_strict(t, x);
        lemma_insert_contents(t, x);
        let u = ranked_insert(t, x);
        let r = seq![s[0]] + u;
        assert forall|i: int, j: int| 0 <= i < j < r.len() implies tag_lt(#[trigger] r[i], #[trigger] r[j]) by {
            if i == 0 {
                let y = u[j - 1];
                assert(r[j] == y);
                assert(u.to_multiset().count(y) > 0);
                if y != x {
                    assert(t.to_multiset().count(y) > 0);
                    let q = choose|q: int| 0 <= q < t.len() && t[q] == y;
                    assert(s[q + 1] == y);
                    assert(tag_lt(s[0], s[q + 1]));
                }
            } else {
                assert(r[i] == u[i - 1] && r[j] == u[j - 1]);
            }
        }
    }
}

/// Sorting items whose tags increase gives items strictly sorted by key, then tag.
proof fn lemma_sort_strict<T>(s: Seq<(ScoreableEntry, (usize, T))>)
    requires
        forall|i: int, j: int| 0 <= i < j < s.len() ==> (#[trigger] s[i]).1.0 < (#[trigger] s[j]).1.0,
    ensures
        strictly_sorted(ranked_sort(s)),
    decreases s.len(),
{
    if s.len() > 0 {
        let t = s.drop_first();
        assert forall|i: int, j: int| 0 <= i < j < t.len() implies (#[trigger] t[i]).1.0 < (
        #[trigger] t[j]).1.0 by {
            assert(t[i] == s[i + 1] && t[j] == s[j + 1]);
        }
        lemma_sort_strict(t);
        lemma_ranked_sort(t);
        let r = ranked_sort(t);
        assert forall|k: int| 0 <= k < r.len() implies s[0].1.0 < (#[trigger] r[k]).1.0 by {
            assert(r.to_multiset().count(r[k]) > 0);
            assert(t.to_multiset().count(r[k]) > 0);
            let q = choose|q: int| 0 <= q < t.len() && t[q] == r[k];
            assert(s[q + 1] == r[k]);
        }
        lemma_insert_strict(r, s[0]);
    }
}

/// Two sequences strictly sorted by key and tag, holding the same items, are equal.
proof fn lemma_strict_unique<T>(a: Seq<(ScoreableEntry, (usize, T))>, b: Seq<(ScoreableEntry, (usize, T))>)
    requires
        strictly_sorted(a),
        strictly_sorted(b),
        a.to_multiset() == b.to_multiset(),
    ensures
        a == b,
    decreases a.len(),
{
    if a.len() == 0 {
        assert(b.to_multiset().len() == 0);
        assert(b.len() == 0);
        assert(a =~= b);
    } else {
        assert(a.to_multiset().count(a[0]) > 0);
        assert(b.len() > 0) by {
            if b.len() == 0 {
                assert(b.to_multiset().count(a[0]) == 0);
            }
        }
        assert(b.to_multiset().count(b[0]) > 0);
        let k = choose|k: int| 0 <= k < b.len() && b[k] == a[0];
        let q = choose|q: int| 0 <= q < a.len() && a[q] == b[0];
        if k > 0 {
            assert(tag_lt(b[0], b[k]));
            if q > 0 {
                assert(tag_lt(a[0], a[q]));
            }
            assert(false);
        }
        assert(a[0] == b[0]);
        vstd::seq_lib::lemma_multiset_commutative(seq![a[0]], a.drop_first());
        vstd::seq_lib::lemma_multiset_commutative(seq![b[0]], b.drop_first());
        assert(seq![a[0]] + a.drop_first() =~= a);
        assert(seq![b[0]] + b.drop_first() =~= b);
        assert(seq![a[0]] =~= Seq::<(ScoreableEntry, (usize, T))>::empty().push(a[0]));
        assert(a.drop_first().to_multiset() =~= b.drop_first().to_multiset()) by {
            let ma = a.drop_first().to_multiset();
            let mb = b.drop_first().to_multiset();
            assert(a.to_multiset() =~= ma.insert(a[0]));
            assert(b.to_multiset() =~= mb.insert(a[0]));
            assert forall|y: (ScoreableEntry, (usize, T))| ma.count(y) == mb.count(y) by {
                assert(ma.insert(a[0]).count(y) == mb.insert(a[0]).count(y));
            }
        }
        let a1 = a.drop_first();
        let b1 = b.drop_first();
        assert(strictly_sorted(a1)) by {
            assert forall|i: int, j: int| 0 <= i < j < a1.len() implies tag_lt(#[trigger] a1[i], #[trigger] a1[j]) by {
                assert(a1[i] == a[i + 1] && a1[j] == a[j + 1]);
            }
        }
        assert(strictly_sorted(b1)) by {
            assert forall|i: int, j: int| 0 <= i < j < b1.len() implies tag_lt(#[trigger] b1[i], #[trigger] b1[j]) by {
                assert(b1[i] == b[i + 1] && b1[j] == b[j + 1]);
            }
        }
        lemma_strict_unique(a1, b1);
        assert(a =~= b);
    }
}

fn tag_before<T: Copy>(a: &(ScoreableEntry, (usize, T)), b: &(ScoreableEntry, (usize, T))) -> (r: bool)
    ensures
        r == tag_lt(*a, *b),
{
    proof {
        lemma_rank_of(a.0, b.0);
        lemma_rank_of(b.0, a.0);
    }
    a.0.sorts_before(&b.0) || (a.0 == b.0 && a.1.0 < b.1.0)
}

/// Merges two strictly sorted runs.
fn merge<T: Copy>(left: &Vec<(ScoreableEntry, (usize, T))>, right: &Vec<(ScoreableEntry, (usize, T))>) -> (r: Vec<
    (ScoreableEntry, (usize, T)),
>)
    requires
        strictly_sorted(left@),
        strictly_sorted(right@),
        forall|i: int, j: int| 0 <= i < left@.len() && 0 <= j < right@.len() ==> (#[trigger] left@[i]).1.0 != (#[trigger] right@[j]).1.0,
    ensures
        strictly_sorted(r@),
        r@.to_multiset() == left@.to_multiset().add(right@.to_multiset()),
{
    let mut r: Vec<(ScoreableEntry, (usize, T))> = Vec::new();
    let mut i: usize = 0;
    let mut j: usize = 0;
    while i < left.len() || j < right.len()
        invariant
            i <= left@.len(),
            j <= right@.len(),
            strictly_sorted(left@),
            strictly_sorted(right@),
            forall|a: int, b: int| 0 <= a < left@.len() && 0 <= b < right@.len() ==> (#[trigger] left@[a]).1.0 != (#[trigger] right@[b]).1.0,
            strictly_sorted(r@),
            r@.to_multiset() == left@.take(i as int).to_multiset().add(right@.take(j as int).to_multiset()),
            r@.len() == i + j,
            r@.len() > 0 ==> (forall|a: int| i <= a < left@.len() ==> tag_lt(r@.last(), #[trigger] left@[a])),
            r@.len() > 0 ==> (forall|b: int| j <= b < right@.len() ==> tag_lt(r@.last(), #[trigger] right@[b])),
        decreases left@.len() + right@.len() - i - j,
    {
        let take_left = if i < left.len() && j < right.len() {
            tag_before(&left[i], &right[j])
        } else {
            i < left.len()
        };
        let ghost prev = r@;
        if take_left {
            let x = left[i];
            r.push(x);
            proof {
                assert(left@.take(i + 1) =~= left@.take(i as int).push(x));
                if j < right@.len() {
                    assert(tag_lt(x, right@[j as int]));
                }
            }
            i = i + 1;
        } else {
            let x = right[j];
            r.push(x);
            proof {
                assert(right@.take(j + 1) =~= right@.take(j as int).push(x));
                if i < left@.len() {
                    assert(!tag_lt(left@[i as int], x));
                    assert(left@[i as int].1.0 != x.1.0);
                    assert(tag_lt(x, left@[i as int]));
                }
            }
            j = j + 1;
        }
        proof {
            let x = r@.last();
            assert(r@ == prev.push(x));
            assert forall|a: int, b: int| 0 <= a < b < r@.len() implies tag_lt(#[trigger] r@[a], #[trigger] r@[b]) by {
                if b == r@.len() - 1 {
                    assert(r@[b] == x);
                    assert(r@[a] == prev[a]);
                    if a < prev.len() - 1 {
                        assert(tag_lt(prev[a], prev.last()));
                    }
                } else {
                    assert(r@[a] == prev[a] && r@[b] == prev[b]);
                }
            }
        }
    }
    assert(left@.take(i as int) =~= left@);
    assert(right@.take(j as int) =~= right@);
    r
}

/// The items `v[lo..hi]` strictly sorted by key, then tag.
fn merge_sort_range<T: Copy>(v: &Vec<(ScoreableEntry, (usize, T))>, lo: usize, hi: usize) -> (r: Vec<
    (ScoreableEntry, (usize, T)),
>)
    requires
        lo <= hi <= v@.len(),
        forall|i: int, j: int| 0 <= i < j < v@.len() ==> (#[trigger] v@[i]).1.0 < (#[trigger] v@[j]).1.0,
    ensures
        strictly_sorted(r@),
        r@.to_multiset() == v@.subrange(lo as int, hi as int).to_multiset(),
    decreases hi - lo,
{
    if hi - lo <= 1 {
        let mut r: Vec<(ScoreableEntry, (usize, T))> = Vec::new();
        if hi - lo == 1 {
            r.push(v[lo]);
        }
        assert(r@ =~= v@.subrange(lo as int, hi as int));
        return r;
    }
    let mid = lo + (hi - lo) / 2;
    let left = merge_sort_range(v, lo, mid);
    let right = merge_sort_range(v, mid, hi);
    proof {
        vstd::seq_lib::lemma_multiset_commutative(v@.subrange(lo as int, mid as int), v@.subrange(mid as int, hi as int));
        assert(v@.subrange(lo as int, mid as int) + v@.subrange(mid as int, hi as int) =~= v@.subrange(lo as int, hi as int));
        assert forall|i: int, j: int| 0 <= i < left@.len() && 0 <= j < right@.len() implies (#[trigger] left@[i]).1.0 != (#[trigger] right@[j]).1.0 by {
            assert(left@.to_multiset().count(left@[i]) > 0);
            assert(right@.to_multiset().count(right@[j]) > 0);
            let a = choose|a: int| 0 <= a < mid - lo && v@.subrange(lo as int, mid as int)[a] == left@[i];
            let b = choose|b: int| 0 <= b < hi - mid && v@.subrange(mid as int, hi as int)[b] == right@[j];
            assert(v@[lo + a] == left@[i]);
            assert(v@[mid + b] == right@[j]);
        }
    }
    merge(&left, &right)
}

/// Sorts items by their keys, stably.
pub fn sort_ranked<T: Copy>(v: Vec<(ScoreableEntry, T)>) -> (r: Vec<(ScoreableEntry, T)>)
    ensures
        r@ == ranked_sort(v@),
{
    let mut tagged_items: Vec<(ScoreableEntry, (usize, T))> = Vec::new();
    let mut i: usize = 0;
    while i < v.len()
        invariant
            i <= v@.len(),
            tagged_items@ == tagged(v@).take(i as int),
        decreases v.len() - i,
    {
        let x = v[i];
        tagged_items.push((x.0, (i, x.1)));
        i = i + 1;
        assert(tagged_items@ =~= tagged(v@).take(i as int));
    }
    assert(tagged(v@).take(i as int) =~= tagged(v@));
    let sorted = merge_sort_range(&tagged_items, 0, tagged_items.len());
    let mut r: Vec<(ScoreableEntry, T)> = Vec::new();
    let mut k: usize = 0;
    while k < sorted.len()
        invariant
            k <= sorted@.len(),
            r@ == untagged(sorted@.take(k as int)),
        decreases sorted.len() - k,
    {
        let x = sorted[k];
        r.push((x.0, x.1.1));
        k = k + 1;
        assert(r@ =~= untagged(sorted@.take(k as int)));
    }
    proof {
        let t = tagged(v@);
        assert(sorted@.take(k as int) =~= sorted@);
        assert(t.subrange(0, t.len() as int) =~= t);
        lemma_sort_strict(t);
        lemma_ranked_sort(t);
        lemma_strict_unique(sorted@, ranked_sort(t));
        lemma_sort_untagged(t);
        assert(untagged(t) =~= v@);
    }
    r
}

} // verus!

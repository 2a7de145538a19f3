//! Facts about sequences of ranges that the operations and laws rest on.
use crate::ranges::{UnaryRange, all_valid, cover, covers, domain, normal_form, normalized};
use crate::traits::Bounded;
use vstd::prelude::*;

verus! {

/// Every position that a sequence of ranges covers lies in the domain
pub proof fn lemma_cover_in_domain<T: Bounded>(s: Seq<UnaryRange<T>>)
    ensures
        cover(s).subset_of(domain::<T>()),
{
    assert forall|v: int| cover(s).contains(v) implies domain::<T>().contains(v) by {
        let i = choose|i: int| 0 <= i < s.len() && (#[trigger] s[i]).spans(v);
        T::lemma_rank_bounds(s[i].low);
        T::lemma_rank_bounds(s[i].high);
    }
}

/// What no range, one range and two ranges cover
pub proof fn lemma_cover_small<T: Bounded>(a: UnaryRange<T>, b: UnaryRange<T>)
    ensures
        cover(Seq::<UnaryRange<T>>::empty()) == Set::<int>::empty(),
        cover(seq![a]) == a.values(),
        cover(seq![a, b]) == a.values().union(b.values()),
{
    let s1 = seq![a];
    let s2 = seq![a, b];
    assert forall|v: int| a.values().contains(v) implies cover(s1).contains(v) by {
        assert(s1[0].spans(v));
    }
    assert forall|v: int| a.values().union(b.values()).contains(v) implies cover(s2).contains(
        v,
    ) by {
        if a.spans(v) {
            assert(s2[0].spans(v));
        } else {
            assert(s2[1].spans(v));
        }
    }
    assert(cover(Seq::<UnaryRange<T>>::empty()) =~= Set::<int>::empty());
    assert(cover(s1) =~= a.values());
    assert(cover(s2) =~= a.values().union(b.values()));
}

/// Sequences with the same ranges cover the same positions
pub proof fn lemma_cover_elements<T: Bounded>(a: Seq<UnaryRange<T>>, b: Seq<UnaryRange<T>>)
    requires
        forall|x: UnaryRange<T>| a.contains(x) ==> b.contains(x),
    ensures
        cover(a).subset_of(cover(b)),
        all_valid(b) ==> all_valid(a),
{
    assert forall|v: int| cover(a).contains(v) implies cover(b).contains(v) by {
        let i = choose|i: int| 0 <= i < a.len() && (#[trigger] a[i]).spans(v);
        assert(a.contains(a[i]));
        let j = choose|j: int| 0 <= j < b.len() && b[j] == a[i];
        assert(b[j].spans(v));
    }
    if all_valid(b) {
        assert forall|i: int| 0 <= i < a.len() implies (#[trigger] a[i]).valid() by {
            assert(a.contains(a[i]));
            let j = choose|j: int| 0 <= j < b.len() && b[j] == a[i];
            assert(b[j].valid());
        }
    }
}

/// A range inserted anywhere is held along with those already there
pub proof fn lemma_insert_contains<A>(s: Seq<A>, j: int, x: A, y: A)
    requires
        0 <= j <= s.len(),
    ensures
        s.insert(j, x).contains(y) <==> (y == x || s.contains(y)),
{
    s.insert_ensures(j, x);
    let t = s.insert(j, x);
    if t.contains(y) {
        let i = choose|i: int| 0 <= i < t.len() && t[i] == y;
        if i < j {
            assert(s[i] == y);
        } else if i > j {
            assert(s[i - 1] == y);
        }
    }
    if y == x || s.contains(y) {
        if y == x {
            assert(t[j] == y);
        } else {
            let i = choose|i: int| 0 <= i < s.len() && s[i] == y;
            if i < j {
                assert(t[i] == y);
            } else {
                assert(t[i + 1] == y);
            }
        }
    }
}

/// A prefix one longer holds one more range
pub proof fn lemma_prefix_contains<A>(s: Seq<A>, k: int, y: A)
    requires
        0 <= k < s.len(),
    ensures
        s.subrange(0, k + 1).contains(y) <==> (y == s[k] || s.subrange(0, k).contains(y)),
{
    let p = s.subrange(0, k);
    let q = s.subrange(0, k + 1);
    if q.contains(y) {
        let i = choose|i: int| 0 <= i < q.len() && q[i] == y;
        if i < k {
            assert(p[i] == y);
        }
    }
    if y == s[k] || p.contains(y) {
        if y == s[k] {
            assert(q[k] == y);
        } else {
            let i = choose|i: int| 0 <= i < p.len() && p[i] == y;
            assert(q[i] == y);
        }
    }
}

/// Two sequences together cover what each covers
pub proof fn lemma_cover_concat<T: Bounded>(a: Seq<UnaryRange<T>>, b: Seq<UnaryRange<T>>)
    ensures
        cover(a + b) == cover(a).union(cover(b)),
        all_valid(a) && all_valid(b) ==> all_valid(a + b),
{
    let c = a + b;
    assert forall|v: int| cover(c).contains(v) implies cover(a).union(cover(b)).contains(v) by {
        let i = choose|i: int| 0 <= i < c.len() && (#[trigger] c[i]).spans(v);
        if i < a.len() {
            assert(a[i].spans(v));
        } else {
            assert(b[i - a.len()].spans(v));
        }
    }
    assert forall|v: int| cover(a).union(cover(b)).contains(v) implies cover(c).contains(v) by {
        if cover(a).contains(v) {
            let i = choose|i: int| 0 <= i < a.len() && (#[trigger] a[i]).spans(v);
            assert(c[i].spans(v));
        } else {
            let i = choose|i: int| 0 <= i < b.len() && (#[trigger] b[i]).spans(v);
            assert(c[i + a.len()].spans(v));
        }
    }
    assert(cover(c) =~= cover(a).union(cover(b)));
    if all_valid(a) && all_valid(b) {
        assert forall|i: int| 0 <= i < c.len() implies (#[trigger] c[i]).valid() by {
            if i < a.len() {
                assert(a[i].valid());
            } else {
                assert(b[i - a.len()].valid());
            }
        }
    }
}

/// Melding the range at `i` with the one after it, which starts no later
/// than one step past its end, leaves the positions covered as they were
pub proof fn lemma_meld_step<T: Bounded>(s: Seq<UnaryRange<T>>, i: int, merged: UnaryRange<T>)
    requires
        0 <= i < i + 1 < s.len(),
        s[i].valid(),
        s[i + 1].valid(),
        s[i].lo() <= s[i + 1].lo() <= s[i].hi() + 1,
        merged.lo() == s[i].lo(),
        merged.hi() == if s[i].hi() <= s[i + 1].hi() {
            s[i + 1].hi()
        } else {
            s[i].hi()
        },
    ensures
        cover(s.update(i, merged).remove(i + 1)) == cover(s),
{
    let t = s.update(i, merged).remove(i + 1);
    assert forall|v: int| cover(t).contains(v) implies cover(s).contains(v) by {
        let k = choose|k: int| 0 <= k < t.len() && (#[trigger] t[k]).spans(v);
        if k < i {
            assert(s[k].spans(v));
        } else if k == i {
            if v <= s[i].hi() {
                assert(s[i].spans(v));
            } else {
                assert(s[i + 1].spans(v));
            }
        } else {
            assert(s[k + 1].spans(v));
        }
    }
    assert forall|v: int| cover(s).contains(v) implies cover(t).contains(v) by {
        let k = choose|k: int| 0 <= k < s.len() && (#[trigger] s[k]).spans(v);
        if k < i {
            assert(t[k].spans(v));
        } else if k == i || k == i + 1 {
            assert(t[i].spans(v));
        } else {
            assert(t[k - 1].spans(v));
        }
    }
    assert(cover(t) =~= cover(s));
}

/// Replacing the range at `i` of a normalized sequence by normalized pieces
/// of it that leave out `gone` keeps the sequence normalized and changes
/// nothing outside `gone`
pub proof fn lemma_replace_one<T: Bounded>(
    s: Seq<UnaryRange<T>>,
    i: int,
    p: Seq<UnaryRange<T>>,
    gone: Set<int>,
)
    requires
        normalized(s),
        normalized(p),
        0 <= i < s.len(),
        forall|k: int| 0 <= k < p.len() ==> s[i].lo() <= (#[trigger] p[k]).lo() && p[k].hi() <= s[i].hi(),
        cover(p) == s[i].values().difference(gone),
    ensures
        normalized(s.subrange(0, i) + p + s.subrange(i + 1, s.len() as int)),
        cover(s.subrange(0, i) + p + s.subrange(i + 1, s.len() as int)).difference(gone)
            == cover(s).difference(gone),
{
    let n = p.len();
    let t = s.subrange(0, i) + p + s.subrange(i + 1, s.len() as int);
    assert forall|a: int| 0 <= a < t.len() implies (#[trigger] t[a]).valid() by {
        if a < i {
            assert(s[a].valid());
        } else if a < i + n {
            assert(p[a - i].valid());
        } else {
            assert(s[a - n + 1].valid());
        }
    }
    assert forall|a: int, b: int| 0 <= a < b < t.len() implies (#[trigger] t[a]).hi() + 1 < (
    #[trigger] t[b]).lo() by {
        if b < i {
            assert(s[a].hi() + 1 < s[b].lo());
        } else if b < i + n {
            if a < i {
                assert(s[a].hi() + 1 < s[i].lo());
                assert(s[i].lo() <= p[b - i].lo());
            } else {
                assert(p[a - i].hi() + 1 < p[b - i].lo());
            }
        } else {
            assert(s[i].hi() + 1 < s[b - n + 1].lo());
            if a < i {
                assert(s[a].hi() + 1 < s[b - n + 1].lo());
            } else if a < i + n {
                assert(p[a - i].hi() <= s[i].hi());
            } else {
                assert(s[a - n + 1].hi() + 1 < s[b - n + 1].lo());
            }
        }
    }
    assert forall|v: int| cover(t).difference(gone).contains(v) implies cover(s).difference(
        gone,
    ).contains(v) by {
        let a = choose|a: int| 0 <= a < t.len() && (#[trigger] t[a]).spans(v);
        if a < i {
            assert(s[a].spans(v));
        } else if a < i + n {
            assert(p[a - i].spans(v));
            assert(cover(p).contains(v));
            assert(s[i].spans(v));
        } else {
            assert(s[a - n + 1].spans(v));
        }
    }
    assert forall|v: int| cover(s).difference(gone).contains(v) implies cover(t).difference(
        gone,
    ).contains(v) by {
        let a = choose|a: int| 0 <= a < s.len() && (#[trigger] s[a]).spans(v);
        if a < i {
            assert(t[a].spans(v));
        } else if a == i {
            assert(s[i].values().difference(gone).contains(v));
            let k = choose|k: int| 0 <= k < p.len() && (#[trigger] p[k]).spans(v);
            assert(t[i + k].spans(v));
        } else {
            assert(t[a + n - 1].spans(v));
        }
    }
    assert(cover(t).difference(gone) =~= cover(s).difference(gone));
}

/// The first range of a normalized sequence starts at the least covered
/// position
proof fn lemma_first_low<T: Bounded>(a: Seq<UnaryRange<T>>, b: Seq<UnaryRange<T>>)
    requires
        normalized(a),
        normalized(b),
        cover(a) == cover(b),
        a.len() > 0,
        b.len() > 0,
    ensures
        b[0].lo() <= a[0].lo(),
{
    assert(a[0].spans(a[0].lo()));
    assert(cover(a).contains(a[0].lo()));
    assert(cover(b).contains(a[0].lo()));
    let j = choose|j: int| 0 <= j < b.len() && (#[trigger] b[j]).spans(a[0].lo());
    if j > 0 {
        assert(b[0].hi() + 1 < b[j].lo());
    }
}

/// Where two normalized sequences cover the same positions and start at
/// one position, the first range of `a` ends no earlier than that of `b`
proof fn lemma_first_high<T: Bounded>(a: Seq<UnaryRange<T>>, b: Seq<UnaryRange<T>>)
    requires
        normalized(a),
        normalized(b),
        cover(a) == cover(b),
        a.len() > 0,
        b.len() > 0,
        a[0].lo() == b[0].lo(),
    ensures
        b[0].hi() <= a[0].hi(),
{
    if a[0].hi() < b[0].hi() {
        let p = a[0].hi() + 1;
        assert(b[0].spans(p));
        assert(cover(b).contains(p));
        assert(cover(a).contains(p));
        let i = choose|i: int| 0 <= i < a.len() && (#[trigger] a[i]).spans(p);
        if i > 0 {
            assert(a[0].hi() + 1 < a[i].lo());
        }
    }
}

/// Past a shared first range, two normalized sequences that cover the same
/// positions cover the same positions with the rest
proof fn lemma_rest_cover<T: Bounded>(a: Seq<UnaryRange<T>>, b: Seq<UnaryRange<T>>)
    requires
        normalized(a),
        normalized(b),
        cover(a) == cover(b),
        a.len() > 0,
        b.len() > 0,
        a[0].hi() == b[0].hi(),
    ensures
        cover(a.drop_first()).subset_of(cover(b.drop_first())),
{
    let a2 = a.drop_first();
    let b2 = b.drop_first();
    assert forall|v: int| cover(a2).contains(v) implies cover(b2).contains(v) by {
        let i = choose|i: int| 0 <= i < a2.len() && (#[trigger] a2[i]).spans(v);
        assert(a[0].hi() + 1 < a[i + 1].lo());
        assert(a[i + 1].spans(v));
        assert(cover(a).contains(v));
        assert(cover(b).contains(v));
        let j = choose|j: int| 0 <= j < b.len() && (#[trigger] b[j]).spans(v);
        assert(j != 0);
        assert(b2[j - 1].spans(v));
    }
}

/// A normalized sequence of ranges is determined by the positions it covers
pub proof fn lemma_normalized_unique<T: Bounded>(a: Seq<UnaryRange<T>>, b: Seq<UnaryRange<T>>)
    requires
        normalized(a),
        normalized(b),
        cover(a) == cover(b),
    ensures
        a == b,
    decreases a.len(),
{
    if a.len() == 0 || b.len() == 0 {
        if b.len() > 0 {
            assert(b[0].spans(b[0].lo()));
            assert(cover(b).contains(b[0].lo()));
        }
        if a.len() > 0 {
            assert(a[0].spans(a[0].lo()));
            assert(cover(a).contains(a[0].lo()));
        }
        assert(a =~= b);
    } else {
        lemma_first_low(a, b);
        lemma_first_low(b, a);
        lemma_first_high(a, b);
        lemma_first_high(b, a);
        T::lemma_rank_injective(a[0].low, b[0].low);
        T::lemma_rank_injective(a[0].high, b[0].high);
        lemma_rest_cover(a, b);
        lemma_rest_cover(b, a);
        let a2 = a.drop_first();
        let b2 = b.drop_first();
        assert(cover(a2) =~= cover(b2));
        assert forall|i: int, j: int| 0 <= i < j < a2.len() implies (#[trigger] a2[i]).hi() + 1
            < (#[trigger] a2[j]).lo() by {
            assert(a[i + 1].hi() + 1 < a[j + 1].lo());
        }
        assert forall|i: int, j: int| 0 <= i < j < b2.len() implies (#[trigger] b2[i]).hi() + 1
            < (#[trigger] b2[j]).lo() by {
            assert(b[i + 1].hi() + 1 < b[j + 1].lo());
        }
        assert(all_valid(a2));
        assert(all_valid(b2));
        lemma_normalized_unique(a2, b2);
        assert forall|i: int| 0 <= i < a.len() implies a[i] == b[i] by {
            if i > 0 {
                assert(a2[i - 1] == b2[i - 1]);
            }
        }
        assert(a =~= b);
    }
}

/// A normalized sequence is the normal form of what it covers
pub proof fn lemma_normal_form_of<T: Bounded>(s: Seq<UnaryRange<T>>)
    requires
        normalized(s),
    ensures
        normal_form::<T>(cover(s)) == s,
{
    let r = normal_form::<T>(cover(s));
    assert(normalized(s) && cover(s) == cover(s));
    lemma_normalized_unique(r, s);
}

/// The positions of `vals` up to `m`, as a normalized sequence
proof fn lemma_prefix_form<T: Bounded>(vals: Set<int>, m: int) -> (r: Seq<UnaryRange<T>>)
    requires
        T::min_rank() - 1 <= m <= T::max_rank(),
    ensures
        normalized(r),
        cover(r) == Set::new(|v: int| vals.contains(v) && T::min_rank() <= v <= m),
        forall|i: int| 0 <= i < r.len() ==> (#[trigger] r[i]).hi() <= m,
    decreases m - T::min_rank() + 1,
{
    let target = Set::new(|v: int| vals.contains(v) && T::min_rank() <= v <= m);
    if m < T::min_rank() {
        let r = Seq::<UnaryRange<T>>::empty();
        assert(cover(r) =~= target);
        r
    } else {
        let p = lemma_prefix_form::<T>(vals, m - 1);
        if !vals.contains(m) {
            assert(cover(p) =~= target);
            p
        } else {
            T::lemma_at_rank(m);
            let n = p.len() as int;
            if n > 0 && p[n - 1].hi() == m - 1 {
                let grown = UnaryRange { low: p[n - 1].low, high: T::at_rank(m) };
                let q = p.update(n - 1, grown);
                assert forall|i: int, j: int| 0 <= i < j < q.len() implies (#[trigger] q[i]).hi()
                    + 1 < (#[trigger] q[j]).lo() by {
                    assert(p[i].hi() + 1 < p[j].lo());
                }
                assert(all_valid(q)) by {
                    assert forall|i: int| 0 <= i < q.len() implies (#[trigger] q[i]).valid() by {
                        assert(p[i].valid());
                    }
                }
                assert forall|v: int| target.contains(v) implies cover(q).contains(v) by {
                    if v == m {
                        assert(q[n - 1].spans(v));
                    } else {
                        assert(cover(p).contains(v));
                        let i = choose|i: int| 0 <= i < p.len() && (#[trigger] p[i]).spans(v);
                        assert(q[i].spans(v));
                    }
                }
                assert forall|v: int| cover(q).contains(v) implies target.contains(v) by {
                    let i = choose|i: int| 0 <= i < q.len() && (#[trigger] q[i]).spans(v);
                    if v != m {
                        assert(p[i].spans(v));
                        assert(cover(p).contains(v));
                    }
                }
                assert(cover(q) =~= target);
                q
            } else {
                let single = UnaryRange { low: T::at_rank(m), high: T::at_rank(m) };
                let q = p.push(single);
                assert forall|i: int, j: int| 0 <= i < j < q.len() implies (#[trigger] q[i]).hi()
                    + 1 < (#[trigger] q[j]).lo() by {
                    if j < n {
                        assert(p[i].hi() + 1 < p[j].lo());
                    } else if i < n - 1 {
                        assert(p[i].hi() + 1 < p[n - 1].lo());
                        assert(p[n - 1].valid());
                    }
                }
                assert(all_valid(q)) by {
                    assert forall|i: int| 0 <= i < q.len() implies (#[trigger] q[i]).valid() by {
                        if i < n {
                            assert(p[i].valid());
                        }
                    }
                }
                assert forall|v: int| target.contains(v) implies cover(q).contains(v) by {
                    if v == m {
                        assert(q[n].spans(v));
                    } else {
                        assert(cover(p).contains(v));
                        let i = choose|i: int| 0 <= i < p.len() && (#[trigger] p[i]).spans(v);
                        assert(q[i].spans(v));
                    }
                }
                assert forall|v: int| cover(q).contains(v) implies target.contains(v) by {
                    let i = choose|i: int| 0 <= i < q.len() && (#[trigger] q[i]).spans(v);
                    if i < n {
                        assert(p[i].spans(v));
                        assert(cover(p).contains(v));
                    }
                }
                assert(cover(q) =~= target);
                q
            }
        }
    }
}

/// Every set of positions of the domain has a normal form, which covers it
pub proof fn lemma_normal_form<T: Bounded>(vals: Set<int>)
    requires
        vals.subset_of(domain::<T>()),
    ensures
        normalized(normal_form::<T>(vals)),
        cover(normal_form::<T>(vals)) == vals,
{
    T::lemma_rank_bounds(vstd::pervasive::arbitrary::<T>());
    let r = lemma_prefix_form::<T>(vals, T::max_rank());
    assert(cover(r) =~= vals);
    assert(normalized(r) && cover(r) == vals);
}

} // verus!

//! Laws of the interval algebra, stated over the models that the operations'
//! contracts use: [`DisjointRange::add_disjoint_range`] and
//! [`DisjointRange::add_unary_range`] leave `normal_form` of the union,
//! [`DisjointRange::subtract_unary_range`] that of the difference and
//! [`DisjointRange::complement`] that of the rest of the domain.
//!
//! [`DisjointRange::add_disjoint_range`]: crate::ranges::DisjointRange::add_disjoint_range
//! [`DisjointRange::add_unary_range`]: crate::ranges::DisjointRange::add_unary_range
//! [`DisjointRange::subtract_unary_range`]: crate::ranges::DisjointRange::subtract_unary_range
//! [`DisjointRange::complement`]: crate::ranges::DisjointRange::complement
use crate::lemmas::{lemma_cover_in_domain, lemma_cover_small, lemma_normal_form_of};
pub use crate::lemmas::{lemma_normal_form, lemma_normalized_unique};
use crate::ranges::{UnaryRange, cover, covers, domain, normal_form, normalized};
use crate::traits::Bounded;
use vstd::prelude::*;

verus! {

/// The values of a range lie in the domain
proof fn lemma_values_in_domain<T: Bounded>(x: UnaryRange<T>)
    ensures
        x.values().subset_of(domain::<T>()),
{
    lemma_cover_small(x, x);
    lemma_cover_in_domain(seq![x]);
}

/// Adding one disjoint range to another gives the same ranges in either
/// order
pub proof fn lemma_add_disjoint_commutative<T: Bounded>(
    a: Seq<UnaryRange<T>>,
    b: Seq<UnaryRange<T>>,
)
    ensures
        normal_form::<T>(cover(a).union(cover(b))) == normal_form::<T>(cover(b).union(cover(a))),
{
    assert(cover(a).union(cover(b)) =~= cover(b).union(cover(a)));
}

/// Adding three disjoint ranges together gives the same ranges however the
/// additions are grouped
pub proof fn lemma_add_disjoint_associative<T: Bounded>(
    a: Seq<UnaryRange<T>>,
    b: Seq<UnaryRange<T>>,
    c: Seq<UnaryRange<T>>,
)
    ensures
        normal_form::<T>(cover(normal_form::<T>(cover(a).union(cover(b)))).union(cover(c)))
            == normal_form::<T>(cover(a).union(cover(normal_form::<T>(cover(b).union(cover(c)))))),
{
    lemma_cover_in_domain(a);
    lemma_cover_in_domain(b);
    lemma_cover_in_domain(c);
    lemma_normal_form::<T>(cover(a).union(cover(b)));
    lemma_normal_form::<T>(cover(b).union(cover(c)));
    assert(cover(a).union(cover(b)).union(cover(c)) =~= cover(a).union(
        cover(b).union(cover(c)),
    ));
}

/// Adding two unary ranges to a disjoint range, one after the other, gives
/// the same ranges in either order
pub proof fn lemma_add_unary_commutative<T: Bounded>(
    s: Seq<UnaryRange<T>>,
    x: UnaryRange<T>,
    y: UnaryRange<T>,
)
    ensures
        normal_form::<T>(cover(normal_form::<T>(cover(s).union(x.values()))).union(y.values()))
            == normal_form::<T>(cover(normal_form::<T>(cover(s).union(y.values()))).union(
            x.values(),
        )),
{
    lemma_cover_in_domain(s);
    lemma_values_in_domain(x);
    lemma_values_in_domain(y);
    lemma_normal_form::<T>(cover(s).union(x.values()));
    lemma_normal_form::<T>(cover(s).union(y.values()));
    assert(cover(s).union(x.values()).union(y.values()) =~= cover(s).union(y.values()).union(
        x.values(),
    ));
}

/// Taking the complement twice gives back the ranges one started from
pub proof fn lemma_complement_involutive<T: Bounded>(s: Seq<UnaryRange<T>>)
    requires
        normalized(s),
    ensures
        normal_form::<T>(
            domain::<T>().difference(cover(normal_form::<T>(domain::<T>().difference(cover(s))))),
        ) == s,
{
    let rest = domain::<T>().difference(cover(s));
    lemma_cover_in_domain(s);
    lemma_normal_form::<T>(rest);
    assert(domain::<T>().difference(rest) =~= cover(s));
    lemma_normal_form_of(s);
}

/// Each value of the domain lies in exactly one of a disjoint range and its
/// complement
pub proof fn lemma_complement_partitions<T: Bounded>(s: Seq<UnaryRange<T>>, v: int)
    requires
        T::min_rank() <= v <= T::max_rank(),
    ensures
        covers(s, v) != covers(normal_form::<T>(domain::<T>().difference(cover(s))), v),
{
    let rest = domain::<T>().difference(cover(s));
    lemma_normal_form::<T>(rest);
    assert(domain::<T>().contains(v));
    assert(cover(s).contains(v) == covers(s, v));
    assert(cover(normal_form::<T>(rest)).contains(v) == covers(normal_form::<T>(rest), v));
}

/// Removing a unary range and adding it back gives the ranges one started
/// from exactly where every value of the removed range was held before
pub proof fn lemma_subtract_then_add<T: Bounded>(s: Seq<UnaryRange<T>>, x: UnaryRange<T>)
    requires
        normalized(s),
    ensures
        (normal_form::<T>(cover(normal_form::<T>(cover(s).difference(x.values()))).union(
            x.values(),
        )) == s) == x.values().subset_of(cover(s)),
{
    let left = cover(s).difference(x.values());
    lemma_cover_in_domain(s);
    lemma_values_in_domain(x);
    lemma_normal_form::<T>(left);
    let back = left.union(x.values());
    lemma_normal_form::<T>(back);
    lemma_normal_form_of(s);
    if x.values().subset_of(cover(s)) {
        assert(back =~= cover(s));
    }
    if normal_form::<T>(back) == s {
        assert(x.values().subset_of(cover(s))) by {
            assert forall|v: int| x.values().contains(v) implies cover(s).contains(v) by {
                assert(back.contains(v));
            }
        }
    }
}

} // verus!

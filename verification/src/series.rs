//! Points of a series, their ordering by date, and the conversion of prices into returns.
//!
//! A value is carried as the IEEE-754 bit pattern of the `f64` it stands for: the library only ever
//! reads whether a value is finite and non-zero, which the bit pattern decides, and leaves the
//! arithmetic on the values to the code that renders the report.
use vstd::prelude::*;
use vstd::multiset::Multiset;

use crate::error::ReportError;

verus! {

/// One point of a series: days since 1970-01-01 and the bit pattern of its value (a return on the
/// return branch, a price or NAV on the price branch).
#[derive(Clone, Copy, Debug, PartialEq, Eq)]
pub struct SeriesPoint {
    pub days_since_epoch: i32,
    pub value_bits: u64,
}

/// The value of one return, as far as the library decides it.
#[derive(Clone, Copy, Debug, PartialEq, Eq)]
pub enum ReturnValue {
    /// A return given as it is (bit pattern of the `f64`).
    Given(u64),
    /// The return `current / previous - 1` between two consecutive prices (bit patterns).
    Ratio { current: u64, previous: u64 },
}

/// One point of a return series, ready to be turned into a number.
#[derive(Clone, Copy, Debug, PartialEq, Eq)]
pub struct ReturnPoint {
    pub days_since_epoch: i32,
    pub value: ReturnValue,
}

/// Whether a value, given by its IEEE-754 bit pattern, is finite and not (plus or minus) zero:
/// the exponent bits are not all ones, and some bit other than the sign is set.
pub open spec fn usable_divisor(bits: u64) -> bool {
    &&& (bits & 0x7FF0_0000_0000_0000u64) != 0x7FF0_0000_0000_0000u64
    &&& (bits & 0x7FFF_FFFF_FFFF_FFFFu64) != 0
}

/// Whether a value, given by its IEEE-754 bit pattern, is finite: the exponent bits are not all
/// ones (neither an infinity nor a NaN).
pub open spec fn finite_value(bits: u64) -> bool {
    (bits & 0x7FF0_0000_0000_0000u64) != 0x7FF0_0000_0000_0000u64
}

/// Decides [`finite_value`].
pub fn is_finite_value(bits: u64) -> (r: bool)
    ensures
        r == finite_value(bits),
{
    (bits & 0x7FF0_0000_0000_0000u64) != 0x7FF0_0000_0000_0000u64
}

/// Decides [`usable_divisor`].
pub fn is_usable_divisor(bits: u64) -> (r: bool)
    ensures
        r == usable_divisor(bits),
{
    (bits & 0x7FF0_0000_0000_0000u64) != 0x7FF0_0000_0000_0000u64 && (bits
        & 0x7FFF_FFFF_FFFF_FFFFu64) != 0
}

/// Whether a sequence of points is in non-decreasing date order.
pub open spec fn is_sorted_by_day(s: Seq<SeriesPoint>) -> bool {
    forall|i: int, j: int|
        0 <= i <= j < s.len() ==> s[i].days_since_epoch <= s[j].days_since_epoch
}

/// Inserts `p` into `s` after every point whose date is not later than `p`'s.
pub open spec fn insert_by_day(s: Seq<SeriesPoint>, p: SeriesPoint) -> Seq<SeriesPoint>
    decreases s.len(),
{
    if s.len() == 0 {
        seq![p]
    } else if s.last().days_since_epoch <= p.days_since_epoch {
        s.push(p)
    } else {
        insert_by_day(s.drop_last(), p).push(s.last())
    }
}

/// The stable sort of `s` by date: points of one date keep their relative order.
pub open spec fn sorted_by_day(s: Seq<SeriesPoint>) -> Seq<SeriesPoint>
    decreases s.len(),
{
    if s.len() == 0 {
        s
    } else {
        insert_by_day(sorted_by_day(s.drop_last()), s.last())
    }
}

/// The points of `s` that fall on day `d`, in their order in `s`.
pub open spec fn on_day(s: Seq<SeriesPoint>, d: i32) -> Seq<SeriesPoint> {
    s.filter(|p: SeriesPoint| p.days_since_epoch == d)
}

proof fn lemma_on_day_push(s: Seq<SeriesPoint>, x: SeriesPoint, d: i32)
    ensures
        on_day(s.push(x), d) == if x.days_since_epoch == d {
            on_day(s, d).push(x)
        } else {
            on_day(s, d)
        },
{
    reveal(Seq::filter);
    let f = |p: SeriesPoint| p.days_since_epoch == d;
    let t = s.push(x);
    assert(t.drop_last() =~= s);
    assert(t.filter(f) == if f(t.last()) {
        t.drop_last().filter(f).push(t.last())
    } else {
        t.drop_last().filter(f)
    });
}

proof fn lemma_insert_by_day_props(s: Seq<SeriesPoint>, p: SeriesPoint)
    requires
        is_sorted_by_day(s),
    ensures
        is_sorted_by_day(insert_by_day(s, p)),
        insert_by_day(s, p).to_multiset() =~= s.to_multiset().insert(p),
        forall|d: i32|
            #[trigger] on_day(insert_by_day(s, p), d) == if p.days_since_epoch == d {
                on_day(s, d).push(p)
            } else {
                on_day(s, d)
            },
    decreases s.len(),
{
    broadcast use vstd::seq_lib::group_seq_properties;

    let r = insert_by_day(s, p);
    if s.len() == 0 {
        assert(s.to_multiset() =~= Multiset::empty());
        assert forall|d: i32| #[trigger]
            on_day(r, d) == if p.days_since_epoch == d {
                on_day(s, d).push(p)
            } else {
                on_day(s, d)
            } by {
            assert(r =~= s.push(p));
            lemma_on_day_push(s, p, d);
        }
    } else if s.last().days_since_epoch <= p.days_since_epoch {
        assert forall|d: i32| #[trigger]
            on_day(r, d) == if p.days_since_epoch == d {
                on_day(s, d).push(p)
            } else {
                on_day(s, d)
            } by {
            lemma_on_day_push(s, p, d);
        }
    } else {
        let t = s.drop_last();
        assert(is_sorted_by_day(t));
        lemma_insert_by_day_props(t, p);
        let q = insert_by_day(t, p);
        assert(r == q.push(s.last()));
        assert(s =~= t.push(s.last()));
        assert forall|i: int, j: int| 0 <= i <= j < r.len() implies r[i].days_since_epoch
            <= r[j].days_since_epoch by {
            if j == r.len() - 1 && i < j {
                // q holds the points of t and p, all no later than s.last()
                assert(q.to_multiset().count(q[i]) > 0);
                assert(q.contains(q[i]));
                if q[i] == p {
                } else {
                    assert(t.to_multiset().count(q[i]) > 0);
                    assert(t.contains(q[i]));
                    let k = choose|k: int| 0 <= k < t.len() && t[k] == q[i];
                    assert(s[k] == t[k]);
                }
            }
        }
        assert forall|d: i32| #[trigger]
            on_day(r, d) == if p.days_since_epoch == d {
                on_day(s, d).push(p)
            } else {
                on_day(s, d)
            } by {
            lemma_on_day_push(q, s.last(), d);
            lemma_on_day_push(t, s.last(), d);
            assert(on_day(q, d) == if p.days_since_epoch == d {
                on_day(t, d).push(p)
            } else {
                on_day(t, d)
            });
        }
    }
}

/// The stable sort by date is sorted, holds the same points, and keeps the relative order of the
/// points of every single date.
pub proof fn lemma_sorted_by_day(s: Seq<SeriesPoint>)
    ensures
        is_sorted_by_day(sorted_by_day(s)),
        sorted_by_day(s).to_multiset() =~= s.to_multiset(),
        forall|d: i32| #[trigger] on_day(sorted_by_day(s), d) == on_day(s, d),
    decreases s.len(),
{
    broadcast use vstd::seq_lib::group_seq_properties;

    if s.len() == 0 {
    } else {
        let t = s.drop_last();
        lemma_sorted_by_day(t);
        lemma_insert_by_day_props(sorted_by_day(t), s.last());
        assert(s =~= t.push(s.last()));
        assert forall|d: i32| #[trigger] on_day(sorted_by_day(s), d) == on_day(s, d) by {
            lemma_on_day_push(t, s.last(), d);
            assert(on_day(sorted_by_day(t), d) == on_day(t, d));
        }
    }
}

proof fn lemma_on_day_member(s: Seq<SeriesPoint>, d: i32)
    requires
        on_day(s, d).len() > 0,
    ensures
        exists|k: int| 0 <= k < s.len() && #[trigger] s[k].days_since_epoch == d,
    decreases s.len(),
{
    if s.len() == 0 {
        reveal(Seq::filter);
        assert(on_day(s, d) =~= Seq::<SeriesPoint>::empty());
    } else {
        let t = s.drop_last();
        assert(s =~= t.push(s.last()));
        lemma_on_day_push(t, s.last(), d);
        if s.last().days_since_epoch != d {
            lemma_on_day_member(t, d);
            let k = choose|k: int| 0 <= k < t.len() && #[trigger] t[k].days_since_epoch == d;
            assert(s[k] == t[k]);
        } else {
            assert(s[s.len() - 1].days_since_epoch == d);
        }
    }
}

/// Two date-ordered series holding the same points on every date, in the same order, are equal.
proof fn lemma_sorted_by_day_unique(s: Seq<SeriesPoint>, t: Seq<SeriesPoint>)
    requires
        is_sorted_by_day(s),
        is_sorted_by_day(t),
        forall|d: i32| #[trigger] on_day(s, d) == on_day(t, d),
    ensures
        s == t,
    decreases s.len() + t.len(),
{
    if s.len() == 0 && t.len() == 0 {
        assert(s =~= t);
    } else if s.len() == 0 || t.len() == 0 {
        let (u, v) = if s.len() == 0 {
            (t, s)
        } else {
            (s, t)
        };
        let e = u.last().days_since_epoch;
        let u0 = u.drop_last();
        assert(u =~= u0.push(u.last()));
        lemma_on_day_push(u0, u.last(), e);
        assert(on_day(s, e) == on_day(t, e));
        lemma_on_day_member(v, e);
    } else {
        let s0 = s.drop_last();
        let t0 = t.drop_last();
        let x = s.last();
        let y = t.last();
        assert(s =~= s0.push(x));
        assert(t =~= t0.push(y));
        let ds = x.days_since_epoch;
        let dt = y.days_since_epoch;
        lemma_on_day_push(s0, x, ds);
        lemma_on_day_push(t0, y, dt);
        if ds < dt {
            assert(on_day(s, dt) == on_day(t, dt));
            lemma_on_day_member(s, dt);
            let k = choose|k: int| 0 <= k < s.len() && #[trigger] s[k].days_since_epoch == dt;
            assert(s[k].days_since_epoch <= s[s.len() - 1].days_since_epoch);
        }
        if dt < ds {
            assert(on_day(s, ds) == on_day(t, ds));
            lemma_on_day_member(t, ds);
            let k = choose|k: int| 0 <= k < t.len() && #[trigger] t[k].days_since_epoch == ds;
            assert(t[k].days_since_epoch <= t[t.len() - 1].days_since_epoch);
        }
        assert(on_day(s, ds) == on_day(t, ds));
        assert(x == on_day(s, ds).last());
        assert(y == on_day(t, dt).last());
        assert forall|e: i32| #[trigger] on_day(s0, e) == on_day(t0, e) by {
            lemma_on_day_push(s0, x, e);
            lemma_on_day_push(t0, y, e);
            assert(on_day(s, e) == on_day(t, e));
            if e == ds {
                assert(on_day(s0, e) =~= on_day(s, e).drop_last());
                assert(on_day(t0, e) =~= on_day(t, e).drop_last());
            }
        }
        assert(is_sorted_by_day(s0));
        assert(is_sorted_by_day(t0));
        lemma_sorted_by_day_unique(s0, t0);
    }
}

/// Rows of a price series may arrive in any order, as long as the rows of each single date keep
/// their relative order: the returns are the same.
pub proof fn lemma_prices_order_free(a: Seq<SeriesPoint>, b: Seq<SeriesPoint>)
    requires
        forall|d: i32| #[trigger] on_day(a, d) == on_day(b, d),
    ensures
        sorted_by_day(a) == sorted_by_day(b),
        returns_of_sorted_prices(sorted_by_day(a)) == returns_of_sorted_prices(sorted_by_day(b)),
{
    lemma_sorted_by_day(a);
    lemma_sorted_by_day(b);
    assert forall|d: i32| #[trigger] on_day(sorted_by_day(a), d) == on_day(sorted_by_day(b), d) by {
        assert(on_day(a, d) == on_day(b, d));
    }
    lemma_sorted_by_day_unique(sorted_by_day(a), sorted_by_day(b));
}

/// Whether no two points of `s` fall on the same date.
pub open spec fn one_point_per_day(s: Seq<SeriesPoint>) -> bool {
    forall|i: int, j: int|
        0 <= i < j < s.len() ==> #[trigger] s[i].days_since_epoch != #[trigger] s[j].days_since_epoch
}

proof fn lemma_on_day_single(s: Seq<SeriesPoint>, d: i32)
    requires
        one_point_per_day(s),
    ensures
        forall|k: int|
            0 <= k < s.len() && #[trigger] s[k].days_since_epoch == d ==> on_day(s, d) == seq![s[k]],
        (forall|k: int| 0 <= k < s.len() ==> #[trigger] s[k].days_since_epoch != d) ==> on_day(
            s,
            d,
        ).len() == 0,
    decreases s.len(),
{
    if s.len() == 0 {
        reveal(Seq::filter);
        assert(on_day(s, d) =~= Seq::<SeriesPoint>::empty());
    } else {
        let t = s.drop_last();
        let x = s.last();
        assert(s =~= t.push(x));
        lemma_on_day_push(t, x, d);
        assert(one_point_per_day(t)) by {
            assert forall|i: int, j: int| 0 <= i < j < t.len() implies #[trigger] t[i].days_since_epoch
                != #[trigger] t[j].days_since_epoch by {
                assert(s[i] == t[i] && s[j] == t[j]);
            }
        }
        lemma_on_day_single(t, d);
        if x.days_since_epoch == d {
            assert forall|k: int| 0 <= k < t.len() implies #[trigger] t[k].days_since_epoch != d by {
                assert(s[k] == t[k]);
                assert(s[k].days_since_epoch != s[s.len() - 1].days_since_epoch);
            }
            assert(on_day(s, d) =~= seq![x]);
            assert forall|k: int| 0 <= k < s.len() && #[trigger] s[k].days_since_epoch == d implies on_day(
                s,
                d,
            ) == seq![s[k]] by {
                if k < s.len() - 1 {
                    assert(s[k].days_since_epoch != s[s.len() - 1].days_since_epoch);
                }
            }
        } else {
            assert forall|k: int| 0 <= k < s.len() && #[trigger] s[k].days_since_epoch == d implies on_day(
                s,
                d,
            ) == seq![s[k]] by {
                assert(k < s.len() - 1);
                assert(s[k] == t[k]);
                assert(t[k].days_since_epoch == d);
            }
            if forall|k: int| 0 <= k < s.len() ==> #[trigger] s[k].days_since_epoch != d {
                assert forall|k: int| 0 <= k < t.len() implies #[trigger] t[k].days_since_epoch != d by {
                    assert(s[k] == t[k]);
                }
            }
        }
    }
}

/// With one row per date, the rows of a price series may arrive in any order: the returns are the
/// same.
pub proof fn lemma_prices_permutation_free(a: Seq<SeriesPoint>, b: Seq<SeriesPoint>)
    requires
        a.to_multiset() == b.to_multiset(),
        one_point_per_day(a),
    ensures
        sorted_by_day(a) == sorted_by_day(b),
        returns_of_sorted_prices(sorted_by_day(a)) == returns_of_sorted_prices(sorted_by_day(b)),
{
    broadcast use vstd::seq_lib::group_to_multiset_ensures;

    assert(a.no_duplicates()) by {
        assert forall|i: int, j: int| 0 <= i < a.len() && 0 <= j < a.len() && i != j implies a[i]
            != a[j] by {
            if i < j {
                assert(a[i].days_since_epoch != a[j].days_since_epoch);
            } else {
                assert(a[j].days_since_epoch != a[i].days_since_epoch);
            }
        }
    }
    a.lemma_multiset_has_no_duplicates();
    assert forall|x: SeriesPoint| b.to_multiset().contains(x) implies b.to_multiset().count(x)
        == 1 by {
        assert(a.to_multiset().contains(x));
    }
    b.lemma_multiset_has_no_duplicates_conv();
    assert(one_point_per_day(b)) by {
        assert forall|i: int, j: int| 0 <= i < j < b.len() implies #[trigger] b[i].days_since_epoch
            != #[trigger] b[j].days_since_epoch by {
            if b[i].days_since_epoch == b[j].days_since_epoch {
                assert(b.contains(b[i]));
                assert(b.contains(b[j]));
                assert(b.to_multiset().count(b[i]) > 0);
                assert(b.to_multiset().count(b[j]) > 0);
                assert(a.to_multiset().count(b[i]) > 0);
                assert(a.to_multiset().count(b[j]) > 0);
                let p = choose|p: int| 0 <= p < a.len() && a[p] == b[i];
                let q = choose|q: int| 0 <= q < a.len() && a[q] == b[j];
                assert(b[i] != b[j]);
                if p < q {
                    assert(a[p].days_since_epoch != a[q].days_since_epoch);
                } else {
                    assert(a[q].days_since_epoch != a[p].days_since_epoch);
                }
            }
        }
    }
    assert forall|d: i32| #[trigger] on_day(a, d) == on_day(b, d) by {
        lemma_on_day_single(a, d);
        lemma_on_day_single(b, d);
        if exists|k: int| 0 <= k < a.len() && #[trigger] a[k].days_since_epoch == d {
            let k = choose|k: int| 0 <= k < a.len() && #[trigger] a[k].days_since_epoch == d;
            assert(a.contains(a[k]));
            assert(a.to_multiset().count(a[k]) > 0);
            assert(b.to_multiset().count(a[k]) > 0);
            let l = choose|l: int| 0 <= l < b.len() && b[l] == a[k];
            assert(b[l].days_since_epoch == d);
        } else {
            if exists|l: int| 0 <= l < b.len() && #[trigger] b[l].days_since_epoch == d {
                let l = choose|l: int| 0 <= l < b.len() && #[trigger] b[l].days_since_epoch == d;
                assert(b.contains(b[l]));
                assert(b.to_multiset().count(b[l]) > 0);
                assert(a.to_multiset().count(b[l]) > 0);
                let k = choose|k: int| 0 <= k < a.len() && a[k] == b[l];
                assert(a[k].days_since_epoch == d);
            }
            assert(on_day(a, d) =~= on_day(b, d));
        }
    }
    lemma_prices_order_free(a, b);
}

proof fn lemma_insert_behind(s: Seq<SeriesPoint>, p: SeriesPoint, j: int)
    requires
        0 <= j <= s.len(),
        forall|k: int| j <= k < s.len() ==> s[k].days_since_epoch > p.days_since_epoch,
    ensures
        insert_by_day(s, p) == insert_by_day(s.take(j), p) + s.skip(j),
    decreases s.len(),
{
    if j == s.len() {
        assert(s.take(j) =~= s);
        assert(s.skip(j) =~= Seq::<SeriesPoint>::empty());
        assert(insert_by_day(s, p) + Seq::<SeriesPoint>::empty() =~= insert_by_day(s, p));
    } else {
        let t = s.drop_last();
        lemma_insert_behind(t, p, j);
        assert(t.take(j) =~= s.take(j));
        assert(t.skip(j).push(s.last()) =~= s.skip(j));
        assert((insert_by_day(t.take(j), p) + t.skip(j)).push(s.last()) =~= insert_by_day(
            s.take(j),
            p,
        ) + s.skip(j));
    }
}

/// Sorts points by date, keeping the relative order of the points of one date (a stable sort).
pub fn sort_by_day(points: &[SeriesPoint]) -> (sorted: Vec<SeriesPoint>)
    ensures
        sorted@ == sorted_by_day(points@),
{
    let mut sorted: Vec<SeriesPoint> = Vec::new();
    let mut i: usize = 0;
    while i < points.len()
        invariant
            0 <= i <= points@.len(),
            sorted@ == sorted_by_day(points@.take(i as int)),
        decreases points@.len() - i,
    {
        let p = points[i];
        proof {
            lemma_sorted_by_day(points@.take(i as int));
        }
        let mut j: usize = sorted.len();
        while j > 0 && sorted[j - 1].days_since_epoch > p.days_since_epoch
            invariant
                j <= sorted@.len(),
                forall|k: int|
                    j <= k < sorted@.len() ==> sorted@[k].days_since_epoch > p.days_since_epoch,
            decreases j,
        {
            j = j - 1;
        }
        proof {
            lemma_insert_behind(sorted@, p, j as int);
            if j > 0 {
                assert(sorted@.take(j as int).last() == sorted@[j - 1]);
            }
            assert(insert_by_day(sorted@.take(j as int), p) =~= sorted@.take(j as int).push(p));
            assert(points@.take(i + 1).drop_last() =~= points@.take(i as int));
            assert(points@.take(i + 1).last() == p);
        }
        sorted.insert(j, p);
        assert(sorted@ =~= sorted_by_day(points@.take(i + 1)));
        i = i + 1;
    }
    assert(points@.take(points@.len() as int) =~= points@);
    sorted
}

/// The return points of a price series already in date order: every point after the first becomes
/// the ratio to its predecessor, unless the predecessor is zero or not finite, or the point's own
/// price is not finite, in which case that point is skipped (and only that point): no infinity or
/// NaN price goes into a ratio.
pub open spec fn returns_of_sorted_prices(s: Seq<SeriesPoint>) -> Seq<ReturnPoint>
    decreases s.len(),
{
    if s.len() < 2 {
        Seq::empty()
    } else {
        let rest = returns_of_sorted_prices(s.drop_last());
        let previous = s[s.len() - 2];
        let current = s.last();
        if usable_divisor(previous.value_bits) && finite_value(current.value_bits) {
            rest.push(
                ReturnPoint {
                    days_since_epoch: current.days_since_epoch,
                    value: ReturnValue::Ratio {
                        current: current.value_bits,
                        previous: previous.value_bits,
                    },
                },
            )
        } else {
            rest
        }
    }
}

/// Price/NAV series to return series: sorted by date first (stably), then every point after the
/// first becomes `price_t / price_{t-1} - 1`, skipping a point whose predecessor is zero or not
/// finite, or whose own price is not finite. Fewer than two points, or all of them skipped, gives
/// an empty result.
pub fn prices_to_returns(prices: &[SeriesPoint]) -> (out: Vec<ReturnPoint>)
    ensures
        out@ == returns_of_sorted_prices(sorted_by_day(prices@)),
{
    let sorted = sort_by_day(prices);
    let mut out: Vec<ReturnPoint> = Vec::new();
    if sorted.len() < 2 {
        return out;
    }
    let mut k: usize = 1;
    while k < sorted.len()
        invariant
            1 <= k <= sorted@.len(),
            out@ == returns_of_sorted_prices(sorted@.take(k as int)),
        decreases sorted@.len() - k,
    {
        let previous = sorted[k - 1];
        let current = sorted[k];
        proof {
            let t = sorted@.take(k + 1);
            assert(t.drop_last() =~= sorted@.take(k as int));
            assert(t[t.len() - 2] == previous);
            assert(t.last() == current);
        }
        if is_usable_divisor(previous.value_bits) && is_finite_value(current.value_bits) {
            out.push(
                ReturnPoint {
                    days_since_epoch: current.days_since_epoch,
                    value: ReturnValue::Ratio {
                        current: current.value_bits,
                        previous: previous.value_bits,
                    },
                },
            );
        }
        k = k + 1;
    }
    assert(sorted@.take(sorted@.len() as int) =~= sorted@);
    out
}

/// The return points of a return series: every point as it is.
pub open spec fn given_returns(s: Seq<SeriesPoint>) -> Seq<ReturnPoint> {
    s.map_values(
        |p: SeriesPoint|
            ReturnPoint { days_since_epoch: p.days_since_epoch, value: ReturnValue::Given(p.value_bits) },
    )
}

/// Whether the price at position `k` of a date-ordered series gives a return: it has a predecessor
/// that is finite and non-zero, and it is finite itself.
pub open spec fn yields_return(s: Seq<SeriesPoint>, k: int) -> bool {
    &&& 1 <= k < s.len()
    &&& usable_divisor(s[k - 1].value_bits)
    &&& finite_value(s[k].value_bits)
}

/// The return that the price at position `k` gives: its ratio to its predecessor, on its date.
pub open spec fn ratio_at(s: Seq<SeriesPoint>, k: int) -> ReturnPoint {
    ReturnPoint {
        days_since_epoch: s[k].days_since_epoch,
        value: ReturnValue::Ratio { current: s[k].value_bits, previous: s[k - 1].value_bits },
    }
}

/// How many prices of `s` give a return.
pub open spec fn returning_prices(s: Seq<SeriesPoint>) -> nat
    decreases s.len(),
{
    if s.len() == 0 {
        0
    } else {
        returning_prices(s.drop_last()) + if yields_return(s, s.len() - 1) {
            1nat
        } else {
            0nat
        }
    }
}

/// A date-ordered price series gives exactly one return for every price that has a finite,
/// non-zero predecessor and is finite itself, whatever the two prices are (equal prices give a
/// return like any other): every such price has its ratio among the returns, every return is the
/// ratio of such a price, in the order of the prices, and there are as many returns as such
/// prices.
pub proof fn lemma_price_returns_exact(s: Seq<SeriesPoint>)
    ensures
        returns_of_sorted_prices(s).len() == returning_prices(s),
        forall|k: int| #[trigger] yields_return(s, k) ==> returns_of_sorted_prices(s).contains(
            ratio_at(s, k),
        ),
        forall|i: int|
            #![trigger returns_of_sorted_prices(s)[i]]
            0 <= i < returns_of_sorted_prices(s).len() ==> exists|k: int|
                #[trigger] yields_return(s, k) && returns_of_sorted_prices(s)[i] == ratio_at(s, k),
        forall|i: int, j: int|
            0 <= i < j < returns_of_sorted_prices(s).len() ==> exists|a: int, b: int|
                a < b && yields_return(s, a) && yields_return(s, b) && #[trigger] returns_of_sorted_prices(
                    s,
                )[i] == ratio_at(s, a) && #[trigger] returns_of_sorted_prices(s)[j] == ratio_at(s, b),
    decreases s.len(),
{
    let r = returns_of_sorted_prices(s);
    if s.len() == 0 {
    } else {
        let init = s.drop_last();
        lemma_price_returns_exact(init);
        let r0 = returns_of_sorted_prices(init);
        let last = s.len() - 1;
        assert forall|k: int| 1 <= k < init.len() implies yields_return(s, k) == yields_return(init, k)
            && ratio_at(s, k) == ratio_at(init, k) by {
            assert(s[k] == init[k] && s[k - 1] == init[k - 1]);
        }
        if s.len() < 2 {
            assert(r =~= Seq::<ReturnPoint>::empty());
            assert(returning_prices(init) == 0) by {
                assert(init.len() <= 1);
                if init.len() == 1 {
                    assert(init.drop_last().len() == 0);
                }
            }
            assert forall|k: int| !#[trigger] yields_return(s, k) by {}
        } else {
            assert(s[s.len() - 2] == init.last());
            let extra = yields_return(s, last);
            assert(r == if extra {
                r0.push(ratio_at(s, last))
            } else {
                r0
            });
            assert forall|k: int| #[trigger] yields_return(s, k) implies r.contains(ratio_at(s, k)) by {
                if k < last {
                    assert(yields_return(init, k));
                    assert(r0.contains(ratio_at(init, k)));
                    let t = choose|t: int| 0 <= t < r0.len() && r0[t] == ratio_at(init, k);
                    assert(r[t] == r0[t]);
                } else {
                    assert(r[r.len() - 1] == ratio_at(s, last));
                }
            }
            assert forall|i: int| #![trigger r[i]] 0 <= i < r.len() implies exists|k: int|
                #[trigger] yields_return(s, k) && r[i] == ratio_at(s, k) by {
                if i < r0.len() {
                    assert(r[i] == r0[i]);
                    let k = choose|k: int| #[trigger] yields_return(init, k) && r0[i] == ratio_at(init, k);
                    assert(yields_return(s, k));
                } else {
                    assert(yields_return(s, last));
                }
            }
            assert forall|i: int, j: int| 0 <= i < j < r.len() implies exists|a: int, b: int|
                a < b && yields_return(s, a) && yields_return(s, b) && #[trigger] r[i] == ratio_at(s, a)
                    && #[trigger] r[j] == ratio_at(s, b) by {
                if j < r0.len() {
                    assert(r[i] == r0[i] && r[j] == r0[j]);
                    let (a, b) = choose|a: int, b: int|
                        a < b && yields_return(init, a) && yields_return(init, b) && #[trigger] r0[i]
                            == ratio_at(init, a) && #[trigger] r0[j] == ratio_at(init, b);
                    assert(yields_return(s, a) && yields_return(s, b));
                } else {
                    assert(r[i] == r0[i]);
                    let a = choose|a: int| #[trigger] yields_return(init, a) && r0[i] == ratio_at(init, a);
                    assert(yields_return(s, a));
                    assert(yields_return(s, last));
                    assert(r[j] == ratio_at(s, last));
                }
            }
        }
    }
}

/// How often the return point `q` occurs among the returns of `s`: as often as the point it was
/// given by, and never when it is a ratio.
proof fn lemma_given_returns_count(s: Seq<SeriesPoint>, q: ReturnPoint)
    ensures
        given_returns(s).to_multiset().count(q) == match q.value {
            ReturnValue::Given(v) => s.to_multiset().count(
                SeriesPoint { days_since_epoch: q.days_since_epoch, value_bits: v },
            ),
            ReturnValue::Ratio { .. } => 0,
        },
    decreases s.len(),
{
    broadcast use vstd::seq_lib::group_to_multiset_ensures, vstd::multiset::group_multiset_axioms;

    if s.len() == 0 {
        assert(given_returns(s) =~= Seq::<ReturnPoint>::empty());
    } else {
        let init = s.drop_last();
        let x = s.last();
        assert(s =~= init.push(x));
        lemma_given_returns_count(init, q);
        assert(given_returns(s) =~= given_returns(init).push(
            ReturnPoint { days_since_epoch: x.days_since_epoch, value: ReturnValue::Given(x.value_bits) },
        ));
    }
}

/// A return series read in any order holds the same returns: points that are the same multiset
/// give returns that are the same multiset.
pub proof fn lemma_given_returns_permutation(a: Seq<SeriesPoint>, b: Seq<SeriesPoint>)
    requires
        a.to_multiset() == b.to_multiset(),
    ensures
        given_returns(a).to_multiset() == given_returns(b).to_multiset(),
{
    assert forall|q: ReturnPoint| #[trigger] given_returns(a).to_multiset().count(q)
        == given_returns(b).to_multiset().count(q) by {
        lemma_given_returns_count(a, q);
        lemma_given_returns_count(b, q);
    }
    assert(given_returns(a).to_multiset() =~= given_returns(b).to_multiset());
}

/// Return series to return points: the identity on the values.
pub fn returns_as_given(points: &[SeriesPoint]) -> (out: Vec<ReturnPoint>)
    ensures
        out@ == given_returns(points@),
{
    let mut out: Vec<ReturnPoint> = Vec::new();
    let mut i: usize = 0;
    while i < points.len()
        invariant
            0 <= i <= points@.len(),
            out@ == given_returns(points@.take(i as int)),
        decreases points@.len() - i,
    {
        let p = points[i];
        out.push(
            ReturnPoint { days_since_epoch: p.days_since_epoch, value: ReturnValue::Given(p.value_bits) },
        );
        assert(out@ =~= given_returns(points@.take(i + 1)));
        i = i + 1;
    }
    assert(points@.take(points@.len() as int) =~= points@);
    out
}

#[verifier::external_type_specification]
#[verifier::external_body]
pub struct ExNaiveDate(chrono::NaiveDate);

/// The first day count since 1970-01-01 that has a calendar date: January 1, 262144 BCE
/// (`chrono::NaiveDate::MIN`).
pub const MIN_EPOCH_DAY: i32 = -96465292;

/// The last day count since 1970-01-01 that has a calendar date: December 31, 262142 CE
/// (`chrono::NaiveDate::MAX`).
pub const MAX_EPOCH_DAY: i32 = 95026236;

/// Whether a day count since 1970-01-01 has a calendar date.
pub open spec fn has_calendar_date(days: int) -> bool {
    MIN_EPOCH_DAY <= days <= MAX_EPOCH_DAY
}

/// The calendar date that duckfn's `DuckDate::to_naive_date` gives for a day count.
pub uninterp spec fn calendar_date(days: int) -> chrono::NaiveDate;

/// Calls duckfn's `DuckDate::to_naive_date`, the day count since 1970-01-01 as a chrono
/// `NaiveDate`. It succeeds exactly on the day counts between `NaiveDate::MIN` and
/// `NaiveDate::MAX` (chrono's `from_num_days_from_ce_opt` range, shifted by the 719163 days from
/// 0001-01-01 to 1970-01-01); the date itself is only named.
#[verifier::external_body]
fn epoch_date(days_since_epoch: i32) -> (r: Option<chrono::NaiveDate>)
    ensures
        r is Some <==> has_calendar_date(days_since_epoch as int),
        r matches Some(d) ==> d == calendar_date(days_since_epoch as int),
{
    duckfn::DuckDate { days_since_epoch }.to_naive_date().ok()
}

/// Whether `j` is the first point whose day count has no calendar date.
pub open spec fn first_undated_at(points: Seq<ReturnPoint>, j: int) -> bool {
    &&& 0 <= j < points.len()
    &&& !has_calendar_date(points[j].days_since_epoch as int)
    &&& forall|i: int| 0 <= i < j ==> has_calendar_date(#[trigger] points[i].days_since_epoch as int)
}

/// The dates of a series: the calendar date of every point, or the refusal of the first point whose
/// day count has no calendar date.
pub fn series_dates(points: &[ReturnPoint]) -> (r: Result<Vec<chrono::NaiveDate>, ReportError>)
    ensures
        r is Ok <==> forall|i: int|
            0 <= i < points@.len() ==> has_calendar_date(#[trigger] points@[i].days_since_epoch as int),
        r matches Ok(dates) ==> dates@.len() == points@.len() && forall|i: int|
            0 <= i < points@.len() ==> #[trigger] dates@[i] == calendar_date(
                points@[i].days_since_epoch as int,
            ),
        r matches Err(e) ==> exists|j: int|
            #[trigger] first_undated_at(points@, j) && e == (ReportError::DateOutOfRange {
                days_since_epoch: points@[j].days_since_epoch,
            }),
{
    let mut dates: Vec<chrono::NaiveDate> = Vec::new();
    let mut i: usize = 0;
    while i < points.len()
        invariant
            i <= points@.len(),
            dates@.len() == i,
            forall|k: int|
                0 <= k < i ==> has_calendar_date(#[trigger] points@[k].days_since_epoch as int),
            forall|k: int|
                0 <= k < i ==> #[trigger] dates@[k] == calendar_date(
                    points@[k].days_since_epoch as int,
                ),
        decreases points@.len() - i,
    {
        let days = points[i].days_since_epoch;
        match epoch_date(days) {
            Some(d) => dates.push(d),
            None => {
                assert(first_undated_at(points@, i as int));
                return Err(ReportError::DateOutOfRange { days_since_epoch: days });
            },
        }
        i = i + 1;
    }
    Ok(dates)
}

/// The values of a series, in order (what the renderer turns into numbers).
pub open spec fn values_of(points: Seq<ReturnPoint>) -> Seq<ReturnValue> {
    points.map_values(|p: ReturnPoint| p.value)
}

/// The values of a series, in order.
pub fn series_values(points: &[ReturnPoint]) -> (r: Vec<ReturnValue>)
    ensures
        r@ == values_of(points@),
{
    let mut r: Vec<ReturnValue> = Vec::new();
    let mut i: usize = 0;
    while i < points.len()
        invariant
            i <= points@.len(),
            r@ == values_of(points@.take(i as int)),
        decreases points@.len() - i,
    {
        r.push(points[i].value);
        assert(r@ =~= values_of(points@.take(i + 1)));
        i = i + 1;
    }
    assert(points@.take(points@.len() as int) =~= points@);
    r
}

/// The calendar date of a day count since 1970-01-01, or its refusal when none exists.
pub fn naive_date(days_since_epoch: i32) -> (r: Result<chrono::NaiveDate, ReportError>)
    ensures
        has_calendar_date(days_since_epoch as int) ==> r == Ok::<chrono::NaiveDate, ReportError>(
            calendar_date(days_since_epoch as int),
        ),
        !has_calendar_date(days_since_epoch as int) ==> r == Err::<chrono::NaiveDate, ReportError>(
            ReportError::DateOutOfRange { days_since_epoch },
        ),
{
    match epoch_date(days_since_epoch) {
        Some(d) => Ok(d),
        None => Err(ReportError::DateOutOfRange { days_since_epoch }),
    }
}

} // verus!

//! Star events, the ordered set that collects them for one series, and the
//! cumulative series that is plotted from it.
use crate::text::{compare_text, lemma_text_cmp_equal, lemma_text_cmp_flip, lemma_text_lt_trans, text_lt};
use core::cmp::Ordering;
use vstd::prelude::*;

verus! {

/// One stargazer event: when, in seconds since the Unix epoch, and by which account.
#[derive(Debug)]
pub struct Star {
    pub time: i64,
    pub login: String,
}

/// The mathematical value of a `Star`: its time and the account's login.
pub type StarView = (i64, Seq<char>);

impl View for Star {
    type V = StarView;

    open spec fn view(&self) -> StarView {
        (self.time, self.login@)
    }
}

/// Order of stars: by time, then by login.
pub open spec fn star_lt(a: StarView, b: StarView) -> bool {
    a.0 < b.0 || (a.0 == b.0 && text_lt(a.1, b.1))
}

/// Strictly increasing under `star_lt`; so no two elements are equal.
pub open spec fn stars_sorted(s: Seq<StarView>) -> bool {
    forall|i: int, j: int| 0 <= i < j < s.len() ==> star_lt(#[trigger] s[i], #[trigger] s[j])
}

/// How many elements come before the place of `x` in a sorted sequence.
pub open spec fn rank(s: Seq<StarView>, x: StarView) -> nat
    decreases s.len(),
{
    if s.len() == 0 || !star_lt(s[0], x) {
        0
    } else {
        1 + rank(s.drop_first(), x)
    }
}

/// A sorted sequence with `x` added in its place, unless it is there already.
pub open spec fn star_insert(s: Seq<StarView>, x: StarView) -> Seq<StarView> {
    if s.contains(x) {
        s
    } else {
        s.insert(rank(s, x) as int, x)
    }
}

pub proof fn lemma_star_lt_trans(a: StarView, b: StarView, c: StarView)
    requires
        star_lt(a, b),
        star_lt(b, c),
    ensures
        star_lt(a, c),
{
    if a.0 == b.0 && b.0 == c.0 {
        lemma_text_lt_trans(a.1, b.1, c.1);
    }
}

pub proof fn lemma_star_lt_irreflexive(a: StarView)
    ensures
        !star_lt(a, a),
{
    lemma_text_cmp_equal(a.1, a.1);
}

/// Any two stars are ordered one way or the other, or are equal.
pub proof fn lemma_star_lt_total(a: StarView, b: StarView)
    ensures
        star_lt(a, b) || star_lt(b, a) || a == b,
{
    lemma_text_cmp_equal(a.1, b.1);
    lemma_text_cmp_flip(a.1, b.1);
    lemma_text_cmp_flip(b.1, a.1);
}

proof fn lemma_rank_bound(s: Seq<StarView>, x: StarView)
    ensures
        rank(s, x) <= s.len(),
    decreases s.len(),
{
    if s.len() > 0 {
        lemma_rank_bound(s.drop_first(), x);
    }
}

proof fn lemma_rank_is(s: Seq<StarView>, x: StarView, i: int)
    requires
        0 <= i <= s.len(),
        forall|k: int| 0 <= k < i ==> star_lt(#[trigger] s[k], x),
        i == s.len() || !star_lt(s[i], x),
    ensures
        rank(s, x) == i,
    decreases s.len(),
{
    if i > 0 {
        assert(star_lt(s[0], x));
        assert forall|k: int| 0 <= k < i - 1 implies star_lt(#[trigger] s.drop_first()[k], x) by {
            assert(s.drop_first()[k] == s[k + 1]);
        }
        lemma_rank_is(s.drop_first(), x, i - 1);
    }
}

/// Order of two stars, as `star_lt` gives it.
pub fn compare_stars(a: &Star, b: &Star) -> (r: Ordering)
    ensures
        (r == Ordering::Less) == star_lt(a@, b@),
        (r == Ordering::Greater) == star_lt(b@, a@),
        (r == Ordering::Equal) == (a@ == b@),
{
    proof {
        lemma_text_cmp_equal(a.login@, b.login@);
        lemma_text_cmp_flip(a.login@, b.login@);
        lemma_text_cmp_flip(b.login@, a.login@);
    }
    if a.time < b.time {
        Ordering::Less
    } else if a.time > b.time {
        Ordering::Greater
    } else {
        compare_text(a.login.as_str(), b.login.as_str())
    }
}

fn star_less(a: &Star, b: &Star) -> (r: bool)
    ensures
        r == star_lt(a@, b@),
{
    match compare_stars(a, b) {
        Ordering::Less => true,
        _ => false,
    }
}

fn star_equal(a: &Star, b: &Star) -> (r: bool)
    ensures
        r == (a@ == b@),
{
    match compare_stars(a, b) {
        Ordering::Equal => true,
        _ => false,
    }
}

/// The stars of one series, each once, in order of time and then login.
pub struct StarSet {
    items: Vec<Star>,
}

impl View for StarSet {
    type V = Seq<StarView>;

    closed spec fn view(&self) -> Seq<StarView> {
        self.items@.map_values(|s: Star| s@)
    }
}

impl StarSet {
    pub open spec fn wf(&self) -> bool {
        stars_sorted(self@)
    }

    pub fn new() -> (r: StarSet)
        ensures
            r.wf(),
            r@ == Seq::<StarView>::empty(),
    {
        let r = StarSet { items: Vec::new() };
        assert(r@ =~= Seq::<StarView>::empty());
        r
    }

    pub fn len(&self) -> (r: usize)
        ensures
            r == self@.len(),
    {
        self.items.len()
    }

    /// The star at position `i`.
    pub fn get(&self, i: usize) -> (r: &Star)
        requires
            i < self@.len(),
        ensures
            r@ == self@[i as int],
    {
        &self.items[i]
    }

    /// Adds a star; a star that is there already is not added again.
    pub fn insert(&mut self, star: Star)
        requires
            old(self).wf(),
        ensures
            final(self).wf(),
            final(self)@ == star_insert(old(self)@, star@),
    {
        let ghost s = self@;
        let ghost x = star@;
        let n = self.items.len();
        let mut i: usize = 0;
        while i < n && star_less(&self.items[i], &star)
            invariant
                n == self.items.len(),
                s == self@,
                x == star@,
                stars_sorted(s),
                i <= n,
                forall|k: int| 0 <= k < i ==> star_lt(#[trigger] s[k], x),
            decreases n - i,
        {
            i = i + 1;
        }
        if i < n && star_equal(&self.items[i], &star) {
            assert(s[i as int] == x);
            assert(s.contains(x));
            return;
        }
        proof {
            assert forall|k: int| i <= k < n implies !(#[trigger] s[k] == x) && star_lt(x, s[k]) by {
                lemma_star_lt_total(s[i as int], x);
                if k > i {
                    lemma_star_lt_trans(x, s[i as int], s[k]);
                }
                lemma_star_lt_irreflexive(x);
            }
            assert(!s.contains(x)) by {
                if s.contains(x) {
                    let k = choose|k: int| 0 <= k < s.len() && s[k] == x;
                    if k < i {
                        lemma_star_lt_irreflexive(x);
                    }
                }
            }
            lemma_rank_is(s, x, i as int);
        }
        self.items.insert(i, star);
        proof {
            assert(self@ =~= s.insert(i as int, x));
            let t = self@;
            assert forall|a: int, b: int| 0 <= a < b < t.len() implies star_lt(#[trigger] t[a], #[trigger] t[b]) by {
                if a < i && b == i {
                } else if a < i && b > i {
                    lemma_star_lt_trans(t[a], x, t[b]);
                } else if a == i {
                } else if b < i {
                } else {
                    assert(t[a] == s[a - 1] && t[b] == s[b - 1]);
                }
            }
        }
    }
}

/// No two elements of a well-formed star set are the same (time, login) pair.
pub proof fn lemma_star_set_unique(s: &StarSet)
    requires
        s.wf(),
    ensures
        forall|i: int, j: int| 0 <= i < s@.len() && 0 <= j < s@.len() && i != j ==> s@[i] != s@[j],
{
    assert forall|i: int, j: int| 0 <= i < s@.len() && 0 <= j < s@.len() && i != j implies s@[i] != s@[j] by {
        lemma_star_lt_irreflexive(s@[i]);
    }
}

/// Inserting a star keeps the set sorted, and inserting it a second time
/// changes nothing: an edge delivered twice is counted once.
pub proof fn lemma_insert_idempotent(s: Seq<StarView>, x: StarView)
    requires
        stars_sorted(s),
    ensures
        star_insert(star_insert(s, x), x) == star_insert(s, x),
        star_insert(s, x).contains(x),
        star_insert(s, x).to_set() == s.to_set().insert(x),
{
    if !s.contains(x) {
        lemma_rank_bound(s, x);
        let t = s.insert(rank(s, x) as int, x);
        assert(t[rank(s, x) as int] == x);
        assert(t.to_set() =~= s.to_set().insert(x)) by {
            assert forall|y: StarView| t.to_set().contains(y) implies s.to_set().insert(x).contains(y) by {
                let k = choose|k: int| 0 <= k < t.len() && t[k] == y;
                if k < rank(s, x) {
                    assert(s[k] == y);
                    assert(s.to_set().contains(y));
                } else if k > rank(s, x) {
                    assert(s[k - 1] == y);
                    assert(s.to_set().contains(y));
                }
            }
            assert forall|y: StarView| s.to_set().insert(x).contains(y) implies t.to_set().contains(y) by {
                if y != x {
                    let k = choose|k: int| 0 <= k < s.len() && s[k] == y;
                    if k < rank(s, x) {
                        assert(t[k] == y);
                    } else {
                        assert(t[k + 1] == y);
                    }
                }
            }
        }
    }
}

/// The boundary star one second before the first real star, attributed to
/// the empty login; none for an empty set, or where no earlier second exists.
pub open spec fn lead_in(s: Seq<StarView>) -> Seq<StarView> {
    if s.len() > 0 && s[0].0 > i64::MIN {
        seq![((s[0].0 - 1) as i64, Seq::<char>::empty())]
    } else {
        Seq::empty()
    }
}

/// Whether the series gets a boundary star at `now`: it is empty, or its
/// latest star is before `now`.
pub open spec fn needs_tail(s: Seq<StarView>, now: i64) -> bool {
    s.len() == 0 || s.last().0 < now
}

/// The stars of a series with its boundary stars added.
pub open spec fn closed_stars(s: Seq<StarView>, now: i64) -> Seq<StarView> {
    if needs_tail(s, now) {
        (lead_in(s) + s).push((now, Seq::<char>::empty()))
    } else {
        lead_in(s) + s
    }
}

/// The count reported at position `i` of `n` points: `i`, but one less for a
/// boundary point at `now` at the end, so that it adds no star.
pub open spec fn point_count(i: int, n: int, tail: bool) -> int {
    if tail && i == n - 1 && i > 0 {
        i - 1
    } else {
        i
    }
}

/// The plotted series: for each star of the closed set, its time and the
/// number of real stars up to it.
pub open spec fn series_points(s: Seq<StarView>, now: i64) -> Seq<(i64, int)> {
    let c = closed_stars(s, now);
    Seq::new(c.len(), |i: int| (c[i].0, point_count(i, c.len() as int, needs_tail(s, now))))
}

/// The points of a plotted series as plain values.
pub open spec fn points_view(p: Seq<(i64, usize)>) -> Seq<(i64, int)> {
    p.map_values(|q: (i64, usize)| (q.0, q.1 as int))
}

proof fn lemma_sorted_times(s: Seq<StarView>, i: int, j: int)
    requires
        stars_sorted(s),
        0 <= i <= j < s.len(),
    ensures
        s[i].0 <= s[j].0,
{
    if i < j {
        assert(star_lt(s[i], s[j]));
    }
}

impl StarSet {
    /// Adds the boundary stars; tells whether one was added at `now`.
    pub fn close(&mut self, now: i64) -> (tail: bool)
        requires
            old(self).wf(),
        ensures
            final(self).wf(),
            final(self)@ == closed_stars(old(self)@, now),
            tail == needs_tail(old(self)@, now),
    {
        let ghost s = self@;
        if self.items.len() > 0 && self.items[0].time > i64::MIN {
            let t = self.items[0].time - 1;
            self.items.insert(0, Star { time: t, login: String::new() });
            proof {
                assert(self@ =~= lead_in(s) + s);
                let u = self@;
                assert forall|a: int, b: int| 0 <= a < b < u.len() implies star_lt(#[trigger] u[a], #[trigger] u[b]) by {
                    if a == 0 {
                        lemma_sorted_times(s, 0, b - 1);
                    } else {
                        assert(u[a] == s[a - 1] && u[b] == s[b - 1]);
                    }
                }
            }
        } else {
            assert(self@ =~= lead_in(s) + s);
        }
        let ghost u = self@;
        let n = self.items.len();
        let tail = n == 0 || self.items[n - 1].time < now;
        assert(tail == needs_tail(s, now)) by {
            if s.len() > 0 {
                assert(u.last() == s.last());
            }
        };
        if tail {
            self.items.push(Star { time: now, login: String::new() });
            proof {
                assert(self@ =~= u.push((now, Seq::<char>::empty())));
                let v = self@;
                assert forall|a: int, b: int| 0 <= a < b < v.len() implies star_lt(#[trigger] v[a], #[trigger] v[b]) by {
                    if b == n {
                        lemma_sorted_times(u, a, n - 1);
                    } else {
                        assert(v[a] == u[a] && v[b] == u[b]);
                    }
                }
            }
        }
        tail
    }

    /// The plotted points: each star's time and position, one less for a
    /// boundary star at `now` that ends the set.
    pub fn points(&self, tail: bool) -> (r: Vec<(i64, usize)>)
        ensures
            points_view(r@) == Seq::new(
                self@.len(),
                |i: int| (self@[i].0, point_count(i, self@.len() as int, tail)),
            ),
    {
        let n = self.items.len();
        let mut r: Vec<(i64, usize)> = Vec::new();
        let mut i: usize = 0;
        while i < n
            invariant
                n == self@.len(),
                i <= n,
                r@.len() == i,
                forall|k: int|
                    0 <= k < i ==> (#[trigger] r@[k]).0 == self@[k].0 && r@[k].1 as int == point_count(
                        k,
                        n as int,
                        tail,
                    ),
            decreases n - i,
        {
            let count = if tail && i == n - 1 && i > 0 {
                i - 1
            } else {
                i
            };
            r.push((self.items[i].time, count));
            assert(self@[i as int] == self.items@[i as int]@);
            assert(count as int == point_count(i as int, n as int, tail));
            i = i + 1;
        }
        assert(points_view(r@) =~= Seq::new(
            self@.len(),
            |i: int| (self@[i].0, point_count(i, self@.len() as int, tail)),
        ));
        r
    }

    /// Closes the set at `now` and gives its plotted series.
    pub fn finish(&mut self, now: i64) -> (r: Vec<(i64, usize)>)
        requires
            old(self).wf(),
        ensures
            final(self).wf(),
            final(self)@ == closed_stars(old(self)@, now),
            points_view(r@) == series_points(old(self)@, now),
    {
        let tail = self.close(now);
        let r = self.points(tail);
        assert(points_view(r@) =~= series_points(old(self)@, now));
        r
    }
}

/// A non-empty series starts at count 0, one second before its first star.
pub proof fn lemma_series_starts_at_zero(s: Seq<StarView>, now: i64)
    requires
        stars_sorted(s),
        s.len() > 0,
        s[0].0 > i64::MIN,
    ensures
        series_points(s, now).len() > 0,
        series_points(s, now)[0].1 == 0,
        series_points(s, now)[0].0 < s[0].0,
{
    let c = closed_stars(s, now);
    assert(c[0] == lead_in(s)[0]);
}

/// Counts never decrease, and from one point to the next they go up by one
/// exactly where the point is a real star.
pub proof fn lemma_series_counts(s: Seq<StarView>, now: i64)
    requires
        stars_sorted(s),
    ensures
        forall|i: int, j: int|
            0 <= i <= j < series_points(s, now).len() ==> series_points(s, now)[i].1 <= series_points(
                s,
                now,
            )[j].1,
        forall|i: int|
            0 < i < series_points(s, now).len() ==> #[trigger] series_points(s, now)[i].1 == series_points(
                s,
                now,
            )[i - 1].1 + if lead_in(s).len() <= i < lead_in(s).len() + s.len() {
                1int
            } else {
                0int
            },
        forall|k: int|
            0 <= k < s.len() ==> #[trigger] closed_stars(s, now)[lead_in(s).len() + k] == s[k],
{
    let c = closed_stars(s, now);
    let p = series_points(s, now);
    assert forall|k: int| 0 <= k < s.len() implies #[trigger] closed_stars(s, now)[lead_in(s).len() + k] == s[k] by {
        assert((lead_in(s) + s)[lead_in(s).len() + k] == s[k]);
    }
}

proof fn lemma_sorted_tail_set(s: Seq<StarView>)
    requires
        stars_sorted(s),
        s.len() > 0,
    ensures
        s.drop_first().to_set() == s.to_set().remove(s[0]),
{
    let t = s.drop_first();
    assert forall|y: StarView| t.to_set().contains(y) implies s.to_set().remove(s[0]).contains(y) by {
        let k = choose|k: int| 0 <= k < t.len() && t[k] == y;
        assert(s[k + 1] == y);
        assert(star_lt(s[0], s[k + 1]));
        lemma_star_lt_irreflexive(y);
        assert(s.to_set().contains(y));
    }
    assert forall|y: StarView| s.to_set().remove(s[0]).contains(y) implies t.to_set().contains(y) by {
        let k = choose|k: int| 0 <= k < s.len() && s[k] == y;
        assert(k != 0);
        assert(t[k - 1] == y);
    }
    assert(t.to_set() =~= s.to_set().remove(s[0]));
}

/// A sorted sequence of stars is fixed by the stars it holds: two with the
/// same stars are the same sequence.
pub proof fn lemma_sorted_determined(a: Seq<StarView>, b: Seq<StarView>)
    requires
        stars_sorted(a),
        stars_sorted(b),
        a.to_set() == b.to_set(),
    ensures
        a == b,
    decreases a.len(),
{
    if a.len() == 0 {
        if b.len() > 0 {
            assert(b.to_set().contains(b[0]));
        }
        assert(a =~= b);
    } else {
        assert(a.to_set().contains(a[0]));
        let m = choose|m: int| 0 <= m < b.len() && b[m] == a[0];
        assert(b.to_set().contains(b[0]));
        let l = choose|l: int| 0 <= l < a.len() && a[l] == b[0];
        if m > 0 {
            assert(star_lt(b[0], b[m]));
            if l > 0 {
                assert(star_lt(a[0], a[l]));
                lemma_star_lt_trans(a[0], a[l], a[0]);
            }
            lemma_star_lt_irreflexive(a[0]);
        }
        assert(a[0] == b[0]);
        lemma_sorted_tail_set(a);
        lemma_sorted_tail_set(b);
        let ta = a.drop_first();
        let tb = b.drop_first();
        assert(stars_sorted(ta)) by {
            assert forall|i: int, j: int| 0 <= i < j < ta.len() implies star_lt(#[trigger] ta[i], #[trigger] ta[j]) by {
                assert(ta[i] == a[i + 1] && ta[j] == a[j + 1]);
            }
        }
        assert(stars_sorted(tb)) by {
            assert forall|i: int, j: int| 0 <= i < j < tb.len() implies star_lt(#[trigger] tb[i], #[trigger] tb[j]) by {
                assert(tb[i] == b[i + 1] && tb[j] == b[j + 1]);
            }
        }
        lemma_sorted_determined(ta, tb);
        assert(a =~= seq![a[0]] + ta);
        assert(b =~= seq![b[0]] + tb);
    }
}

} // verus!

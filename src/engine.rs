//! The scheduler: a queue of page requests taken in bounded batches, and the
//! merge of each response into per-series star sets and further requests.
use crate::decode::{Data, DataView, Owner, Repo, Response};
use crate::query::{Work, WorkView};
use crate::series::{series_key, Cursor, Series, SeriesView};
use crate::stars::{
    closed_stars, lead_in, lemma_insert_idempotent, lemma_series_counts, lemma_series_starts_at_zero,
    lemma_sorted_determined, points_view, series_points, stars_sorted, Star, StarSet, StarView,
};
use vstd::prelude::*;

verus! {

/// The most work items that one round sends.
pub const BATCH_LIMIT: usize = 50;

/// Why a run stops.
#[derive(Debug)]
pub enum Failure {
    /// The API's top-level `message`.
    GitHub(String),
    /// The owner of a request does not exist.
    NoSuchUser(String),
    /// The repository of a request does not exist.
    NoSuchRepo(String, String),
    /// The response does not have the expected shape.
    Decode,
}

pub enum FailureView {
    GitHub(Seq<char>),
    NoSuchUser(Seq<char>),
    NoSuchRepo(Seq<char>, Seq<char>),
    Decode,
}

impl View for Failure {
    type V = FailureView;

    open spec fn view(&self) -> FailureView {
        match self {
            Failure::GitHub(m) => FailureView::GitHub(m@),
            Failure::NoSuchUser(o) => FailureView::NoSuchUser(o@),
            Failure::NoSuchRepo(o, r) => FailureView::NoSuchRepo(o@, r@),
            Failure::Decode => FailureView::Decode,
        }
    }
}

/// How a failure is reported.
pub open spec fn failure_text(f: FailureView) -> Seq<char> {
    match f {
        FailureView::GitHub(m) => "Error from GitHub api: "@ + m,
        FailureView::NoSuchUser(o) => "no such user: "@ + o,
        FailureView::NoSuchRepo(o, r) => "no such repository: "@ + o + "/"@ + r,
        FailureView::Decode => "failed to decode response body"@,
    }
}

impl Failure {
    /// How the failure is reported.
    pub fn describe(&self) -> (r: String)
        ensures
            r@ == failure_text(self@),
    {
        match self {
            Failure::GitHub(m) => {
                let mut s = String::from_str("Error from GitHub api: ");
                s.append(m.as_str());
                s
            },
            Failure::NoSuchUser(o) => {
                let mut s = String::from_str("no such user: ");
                s.append(o.as_str());
                s
            },
            Failure::NoSuchRepo(o, r) => {
                let mut s = String::from_str("no such repository: ");
                s.append(o.as_str());
                s.append("/");
                s.append(r.as_str());
                s
            },
            Failure::Decode => String::from_str("failed to decode response body"),
        }
    }
}

/// A result that names an entity that does not exist.
pub open spec fn is_missing(d: DataView) -> bool {
    match d {
        DataView::Owner(None) => true,
        DataView::Repo(None) => true,
        _ => false,
    }
}

/// The position of the first missing entity, or the length if there is none.
pub open spec fn first_missing(d: Seq<DataView>) -> nat
    decreases d.len(),
{
    if d.len() == 0 || is_missing(d[0]) {
        0
    } else {
        1 + first_missing(d.drop_first())
    }
}

/// The failure for a missing entity in slot `k` of a batch: the series that
/// slot asked for; a slot beyond the batch cannot be attributed.
pub open spec fn missing_failure(batch: Seq<WorkView>, k: int) -> FailureView {
    if 0 <= k < batch.len() {
        match batch[k].series {
            SeriesView::Owner(o) => FailureView::NoSuchUser(o),
            SeriesView::Repo(o, r) => FailureView::NoSuchRepo(o, r),
        }
    } else {
        FailureView::Decode
    }
}

/// The repositories listed in an owner's result, as results of their own.
pub open spec fn children(d: DataView) -> Seq<DataView> {
    match d {
        DataView::Owner(Some(o)) => o.nodes.map_values(|r| DataView::Repo(Some(r))),
        _ => Seq::empty(),
    }
}

/// The repositories listed by all owners' results, in order.
pub open spec fn fanout(d: Seq<DataView>) -> Seq<DataView>
    decreases d.len(),
{
    if d.len() == 0 {
        Seq::empty()
    } else {
        fanout(d.drop_last()) + children(d.last())
    }
}

/// The results of a round followed by the repositories its owners listed.
pub open spec fn expanded(d: Seq<DataView>) -> Seq<DataView> {
    d + fanout(d)
}

/// The work one result adds: an owner's next page of repositories; a
/// repository's next page of stargazers; the first page of stargazers of a
/// repository whose stargazers were not asked for.
pub open spec fn node_work(d: DataView) -> Seq<WorkView> {
    match d {
        DataView::Owner(Some(o)) => if o.page_info.has_next_page {
            seq![WorkView { series: SeriesView::Owner(o.login), cursor: o.page_info.end_cursor }]
        } else {
            Seq::empty()
        },
        DataView::Repo(Some(r)) => match r.stargazers {
            Some(sg) => if sg.page_info.has_next_page {
                seq![WorkView { series: SeriesView::Repo(r.owner, r.name), cursor: sg.page_info.end_cursor }]
            } else {
                Seq::empty()
            },
            None => seq![WorkView { series: SeriesView::Repo(r.owner, r.name), cursor: None }],
        },
        _ => Seq::empty(),
    }
}

/// The work that a sequence of results adds, in order.
pub open spec fn continuations(d: Seq<DataView>) -> Seq<WorkView>
    decreases d.len(),
{
    if d.len() == 0 {
        Seq::empty()
    } else {
        continuations(d.drop_last()) + node_work(d.last())
    }
}

/// The stars one result adds to the series with identity `k`: a repository's
/// stargazers count for the repository and for its owner.
pub open spec fn node_edges(d: DataView, k: SeriesView) -> Set<StarView> {
    match d {
        DataView::Repo(Some(r)) => match r.stargazers {
            Some(sg) => if series_key(SeriesView::Owner(r.owner)) == k || series_key(
                SeriesView::Repo(r.owner, r.name),
            ) == k {
                sg.edges.to_set()
            } else {
                Set::empty()
            },
            None => Set::empty(),
        },
        _ => Set::empty(),
    }
}

/// The stars that a sequence of results adds to the series with identity `k`.
pub open spec fn delivered(d: Seq<DataView>, k: SeriesView) -> Set<StarView>
    decreases d.len(),
{
    if d.len() == 0 {
        Set::empty()
    } else {
        delivered(d.drop_last(), k).union(node_edges(d.last(), k))
    }
}

/// A result that is the last page of its list and leaves nothing to fetch:
/// an owner with no further repositories listed, or a repository's last page
/// of stargazers.
pub open spec fn is_last_page(d: DataView) -> bool {
    match d {
        DataView::Owner(Some(o)) => !o.page_info.has_next_page && o.nodes.len() == 0,
        DataView::Repo(Some(r)) => match r.stargazers {
            Some(sg) => !sg.page_info.has_next_page,
            None => false,
        },
        _ => false,
    }
}

/// A round in which every result is a last page adds no work: the queue then
/// shrinks by the whole batch, so a run whose lists all end stops.
pub proof fn lemma_last_pages_add_no_work(d: Seq<DataView>)
    requires
        forall|i: int| 0 <= i < d.len() ==> is_last_page(#[trigger] d[i]),
    ensures
        continuations(expanded(d)) == Seq::<WorkView>::empty(),
{
    lemma_no_fanout(d);
    lemma_no_work(d);
    assert(expanded(d) =~= d);
}

proof fn lemma_no_fanout(d: Seq<DataView>)
    requires
        forall|i: int| 0 <= i < d.len() ==> is_last_page(#[trigger] d[i]),
    ensures
        fanout(d) == Seq::<DataView>::empty(),
    decreases d.len(),
{
    if d.len() > 0 {
        let init = d.drop_last();
        assert forall|i: int| 0 <= i < init.len() implies is_last_page(#[trigger] init[i]) by {
            assert(init[i] == d[i]);
        }
        lemma_no_fanout(init);
        assert(is_last_page(d.last()));
        assert(children(d.last()) =~= Seq::<DataView>::empty());
        assert(fanout(d) =~= Seq::<DataView>::empty());
    }
}

proof fn lemma_no_work(d: Seq<DataView>)
    requires
        forall|i: int| 0 <= i < d.len() ==> is_last_page(#[trigger] d[i]),
    ensures
        continuations(d) == Seq::<WorkView>::empty(),
    decreases d.len(),
{
    if d.len() > 0 {
        let init = d.drop_last();
        assert forall|i: int| 0 <= i < init.len() implies is_last_page(#[trigger] init[i]) by {
            assert(init[i] == d[i]);
        }
        lemma_no_work(init);
        assert(is_last_page(d.last()));
        assert(node_work(d.last()) =~= Seq::<WorkView>::empty());
        assert(continuations(d) =~= Seq::<WorkView>::empty());
    }
}

proof fn lemma_push_to_set<A>(s: Seq<A>, x: A)
    ensures
        s.push(x).to_set() == s.to_set().insert(x),
{
    let t = s.push(x);
    assert forall|y: A| t.to_set().contains(y) implies s.to_set().insert(x).contains(y) by {
        let k = choose|k: int| 0 <= k < t.len() && t[k] == y;
        if k < s.len() {
            assert(s[k] == y);
            assert(s.to_set().contains(y));
        }
    }
    assert forall|y: A| s.to_set().insert(x).contains(y) implies t.to_set().contains(y) by {
        if y == x {
            assert(t[s.len() as int] == y);
        } else {
            let k = choose|k: int| 0 <= k < s.len() && s[k] == y;
            assert(t[k] == y);
        }
    }
    assert(t.to_set() =~= s.to_set().insert(x));
}

proof fn lemma_first_missing_is(d: Seq<DataView>, i: int)
    requires
        0 <= i <= d.len(),
        forall|k: int| 0 <= k < i ==> !is_missing(#[trigger] d[k]),
        i == d.len() || is_missing(d[i]),
    ensures
        first_missing(d) == i,
    decreases d.len(),
{
    if i > 0 {
        assert(!is_missing(d[0]));
        assert forall|k: int| 0 <= k < i - 1 implies !is_missing(#[trigger] d.drop_first()[k]) by {
            assert(d.drop_first()[k] == d[k + 1]);
        }
        lemma_first_missing_is(d.drop_first(), i - 1);
    }
}

fn is_missing_node(d: &Data) -> (r: bool)
    ensures
        r == is_missing(d@),
{
    match d {
        Data::Owner(None) => true,
        Data::Repo(None) => true,
        _ => false,
    }
}

/// What `finish` gives: for each requested series of `h`, in order, the
/// series and the plotted points of its stars closed at `now`.
pub open spec fn finished_as(h: History, r: Seq<(Series, Vec<(i64, usize)>)>, now: i64) -> bool {
    &&& r.len() == h.requested_view().len()
    &&& forall|j: int|
        0 <= j < r.len() ==> (#[trigger] r[j]).0@ == h.requested_view()[j] && points_view(r[j].1@)
            == series_points(h.seq_of(series_key(h.requested_view()[j])), now)
}

/// Each series that a run emits, for a requested series `j`: its stars are
/// sorted with no repeated (time, login) pair; where it has a real star after
/// the earliest representable second, it starts at count 0 one second before
/// that star; its counts never decrease, and go up by one from one point to
/// the next exactly where that point is a real star.
pub proof fn lemma_run_series(h: History, r: Seq<(Series, Vec<(i64, usize)>)>, now: i64, j: int)
    requires
        h.wf(),
        finished_as(h, r, now),
        0 <= j < r.len(),
    ensures
        stars_sorted(h.seq_of(series_key(h.requested_view()[j]))),
        points_view(r[j].1@) == series_points(h.seq_of(series_key(h.requested_view()[j])), now),
        ({
            let s = h.seq_of(series_key(h.requested_view()[j]));
            let p = points_view(r[j].1@);
            &&& s.len() > 0 && s[0].0 > i64::MIN ==> p.len() > 0 && p[0].1 == 0 && p[0].0 < s[0].0
            &&& forall|a: int, b: int| 0 <= a <= b < p.len() ==> p[a].1 <= p[b].1
            &&& forall|a: int|
                0 < a < p.len() ==> #[trigger] p[a].1 == p[a - 1].1 + if lead_in(s).len() <= a < lead_in(s).len()
                    + s.len() {
                    1int
                } else {
                    0int
                }
        }),
{
    let s = h.seq_of(series_key(h.requested_view()[j]));
    h.lemma_seq_sorted(series_key(h.requested_view()[j]));
    lemma_series_counts(s, now);
    if s.len() > 0 && s[0].0 > i64::MIN {
        lemma_series_starts_at_zero(s, now);
    }
}

/// Two runs with the same requests whose star sets hold the same stars emit
/// the same plotted series at the same `now`. Since `absorb` merges stars as a
/// set union, an edge delivered a second time changes no emitted point.
pub proof fn lemma_same_stars_same_series(
    h1: History,
    r1: Seq<(Series, Vec<(i64, usize)>)>,
    h2: History,
    r2: Seq<(Series, Vec<(i64, usize)>)>,
    now: i64,
)
    requires
        h1.wf(),
        h2.wf(),
        finished_as(h1, r1, now),
        finished_as(h2, r2, now),
        h1.requested_view() == h2.requested_view(),
        forall|k: SeriesView| #[trigger] h1.stars_of(k) == h2.stars_of(k),
    ensures
        r1.len() == r2.len(),
        forall|j: int| 0 <= j < r1.len() ==> points_view((#[trigger] r1[j]).1@) == points_view(r2[j].1@),
{
    assert forall|j: int| 0 <= j < r1.len() implies points_view((#[trigger] r1[j]).1@) == points_view(r2[j].1@) by {
        let k = series_key(h1.requested_view()[j]);
        h1.lemma_seq_sorted(k);
        h2.lemma_seq_sorted(k);
        assert(h1.stars_of(k) == h2.stars_of(k));
        lemma_sorted_determined(h1.seq_of(k), h2.seq_of(k));
    }
}

/// The state of a run: the requested series, the pending work, and a star
/// set for each series seen, one per identity.
pub struct History {
    requested: Vec<Series>,
    queue: Vec<Work>,
    keys: Vec<Series>,
    sets: Vec<StarSet>,
}

impl History {
    pub closed spec fn requested_view(&self) -> Seq<SeriesView> {
        self.requested@.map_values(|s: Series| s@)
    }

    pub closed spec fn queue_view(&self) -> Seq<WorkView> {
        self.queue@.map_values(|w: Work| w@)
    }

    /// Whether a star set is kept for the identity `k`.
    pub closed spec fn has_key(&self, k: SeriesView) -> bool {
        exists|i: int| 0 <= i < self.keys@.len() && (#[trigger] self.keys@[i]).key() == k
    }

    /// The stars of the series with identity `k`, in order.
    pub closed spec fn seq_of(&self, k: SeriesView) -> Seq<StarView> {
        if self.has_key(k) {
            self.sets@[choose|i: int| 0 <= i < self.keys@.len() && (#[trigger] self.keys@[i]).key() == k]@
        } else {
            Seq::empty()
        }
    }

    /// The stars of the series with identity `k`.
    pub open spec fn stars_of(&self, k: SeriesView) -> Set<StarView> {
        self.seq_of(k).to_set()
    }

    pub closed spec fn wf(&self) -> bool {
        &&& self.keys@.len() == self.sets@.len()
        &&& forall|i: int| 0 <= i < self.sets@.len() ==> (#[trigger] self.sets@[i]).wf()
        &&& forall|i: int, j: int|
            0 <= i < j < self.keys@.len() ==> (#[trigger] self.keys@[i]).key() != (#[trigger] self.keys@[j]).key()
        &&& forall|i: int| 0 <= i < self.requested@.len() ==> self.has_key(#[trigger] self.requested@[i].key())
    }

    /// The stars kept for any identity are sorted by time and login, each
    /// (time, login) pair once.
    pub proof fn lemma_seq_sorted(&self, k: SeriesView)
        requires
            self.wf(),
        ensures
            stars_sorted(self.seq_of(k)),
    {
        if self.has_key(k) {
            let c = choose|i: int| 0 <= i < self.keys@.len() && (#[trigger] self.keys@[i]).key() == k;
            assert(self.sets@[c].wf());
        }
    }

    proof fn lemma_seq_at(&self, j: int)
        requires
            self.wf(),
            0 <= j < self.keys@.len(),
        ensures
            self.seq_of(self.keys@[j].key()) == self.sets@[j]@,
    {
        let k = self.keys@[j].key();
        assert(self.has_key(k));
        let c = choose|i: int| 0 <= i < self.keys@.len() && (#[trigger] self.keys@[i]).key() == k;
        if c != j {
            if c < j {
                assert(self.keys@[c].key() != self.keys@[j].key());
            } else {
                assert(self.keys@[j].key() != self.keys@[c].key());
            }
        }
    }

    /// A run for the requested series: one work item each, from the start of
    /// its list, and an empty star set for each identity.
    pub fn new(requested: Vec<Series>) -> (r: History)
        ensures
            r.wf(),
            r.requested_view() == requested@.map_values(|s: Series| s@),
            r.queue_view() == requested@.map_values(|s: Series| WorkView { series: s@, cursor: None }),
            forall|k: SeriesView| #[trigger] r.seq_of(k) == Seq::<StarView>::empty(),
    {
        let mut h = History { requested: Vec::new(), queue: Vec::new(), keys: Vec::new(), sets: Vec::new() };
        let n = requested.len();
        let mut i: usize = 0;
        while i < n
            invariant
                n == requested@.len(),
                i <= n,
                h.wf(),
                h.requested_view() == requested@.take(i as int).map_values(|s: Series| s@),
                h.queue_view() == requested@.take(i as int).map_values(
                    |s: Series| WorkView { series: s@, cursor: None },
                ),
                forall|k: SeriesView| #[trigger] h.seq_of(k) == Seq::<StarView>::empty(),
            decreases n - i,
        {
            let ghost before = h;
            let s = &requested[i];
            let idx = h.entry(s);
            let ghost mid = h;
            h.requested.push(s.duplicate());
            h.queue.push(Work { series: s.duplicate(), cursor: Cursor(None) });
            proof {
                assert(requested@.take(i + 1) =~= requested@.take(i as int).push(requested@[i as int]));
                assert(h.requested@ =~= before.requested@.push(h.requested@.last()));
                assert(h.queue@ =~= before.queue@.push(h.queue@.last()));
                assert(h.requested_view() =~= before.requested_view().push(requested@[i as int]@));
                assert(h.queue_view() =~= before.queue_view().push(
                    WorkView { series: requested@[i as int]@, cursor: None },
                ));
                assert(h.requested_view() =~= requested@.take(i + 1).map_values(|s: Series| s@));
                assert(h.queue_view() =~= requested@.take(i + 1).map_values(
                    |s: Series| WorkView { series: s@, cursor: None },
                ));
                assert(h.has_key(h.keys@[idx as int].key()));
                assert forall|k: SeriesView| #[trigger] h.seq_of(k) == Seq::<StarView>::empty() by {
                    assert(h.keys == mid.keys && h.sets == mid.sets);
                    assert(h.has_key(k) == mid.has_key(k));
                    assert(h.seq_of(k) == mid.seq_of(k));
                }
                assert forall|j: int| 0 <= j < h.requested@.len() implies h.has_key(#[trigger] h.requested@[j].key()) by {
                    if j < i {
                        assert(h.requested@[j] == before.requested@[j]);
                        assert(before.has_key(before.requested@[j].key()));
                    }
                }
            }
            i = i + 1;
        }
        proof {
            assert(requested@.take(n as int) =~= requested@);
        }
        h
    }

    /// Whether work is pending.
    pub fn pending(&self) -> (r: bool)
        ensures
            r == (self.queue_view().len() > 0),
    {
        self.queue.len() > 0
    }

    /// Takes the next batch: the first `BATCH_LIMIT` work items, or all of
    /// them where fewer are pending.
    pub fn next_batch(&mut self) -> (r: Vec<Work>)
        requires
            old(self).wf(),
        ensures
            final(self).wf(),
            r@.len() <= BATCH_LIMIT,
            r@.len() == if old(self).queue_view().len() < BATCH_LIMIT {
                old(self).queue_view().len()
            } else {
                BATCH_LIMIT as nat
            },
            r@.map_values(|w: Work| w@) + final(self).queue_view() == old(self).queue_view(),
            final(self).requested_view() == old(self).requested_view(),
            forall|k: SeriesView| #[trigger] final(self).seq_of(k) == old(self).seq_of(k),
    {
        let n = self.queue.len();
        let take = if n < BATCH_LIMIT {
            n
        } else {
            BATCH_LIMIT
        };
        let ghost q = self.queue@;
        let mut batch = self.queue.split_off(take);
        std::mem::swap(&mut self.queue, &mut batch);
        proof {
            assert(q =~= batch@ + self.queue@);
            assert(batch@.map_values(|w: Work| w@) + self.queue_view() =~= q.map_values(|w: Work| w@));
            assert forall|k: SeriesView| #[trigger] self.has_key(k) == old(self).has_key(k) by {}
        }
        batch
    }

    /// The position of the star set for the identity of `s`, added empty where
    /// there was none.
    fn entry(&mut self, s: &Series) -> (idx: usize)
        requires
            old(self).wf(),
        ensures
            final(self).wf(),
            idx < final(self).keys@.len(),
            final(self).keys@[idx as int].key() == s.key(),
            final(self).requested == old(self).requested,
            final(self).queue == old(self).queue,
            forall|k: SeriesView| #[trigger] final(self).seq_of(k) == old(self).seq_of(k),
            forall|k: SeriesView| #[trigger] final(self).has_key(k) == (old(self).has_key(k) || k == s.key()),
            forall|i: int|
                0 <= i < old(self).keys@.len() ==> #[trigger] final(self).keys@[i] == old(self).keys@[i]
                    && final(self).sets@[i] == old(self).sets@[i],
            final(self).keys@.len() >= old(self).keys@.len(),
    {
        let n = self.keys.len();
        let mut i: usize = 0;
        let ghost start = *self;
        while i < n
            invariant
                *self == start,
                start.wf(),
                n == self.keys@.len(),
                i <= n,
                forall|j: int| 0 <= j < i ==> (#[trigger] self.keys@[j]).key() != s.key(),
            decreases n - i,
        {
            if self.keys[i].same(s) {
                proof {
                    assert(self.keys@[i as int].key() == s.key());
                    assert(self.has_key(s.key()));
                }
                return i;
            }
            i = i + 1;
        }
        let ghost before = *self;
        self.keys.push(s.duplicate());
        self.sets.push(StarSet::new());
        proof {
            assert(self.keys@[n as int].key() == s.key());
            assert forall|k: SeriesView| #[trigger] self.has_key(k) == (before.has_key(k) || k == s.key()) by {
                if before.has_key(k) {
                    let j = choose|j: int| 0 <= j < before.keys@.len() && (#[trigger] before.keys@[j]).key() == k;
                    assert(self.keys@[j] == before.keys@[j]);
                }
                if self.has_key(k) && k != s.key() {
                    let j = choose|j: int| 0 <= j < self.keys@.len() && (#[trigger] self.keys@[j]).key() == k;
                    assert(before.keys@[j] == self.keys@[j]);
                }
            }
            assert forall|j: int| 0 <= j < self.requested@.len() implies self.has_key(#[trigger] self.requested@[j].key()) by {
                assert(before.has_key(before.requested@[j].key()));
            }
            assert forall|k: SeriesView| #[trigger] self.seq_of(k) == before.seq_of(k) by {
                if k == s.key() {
                    self.lemma_seq_at(n as int);
                    assert(!before.has_key(k));
                } else if before.has_key(k) {
                    let j = choose|j: int| 0 <= j < before.keys@.len() && (#[trigger] before.keys@[j]).key() == k;
                    before.lemma_seq_at(j);
                    self.lemma_seq_at(j);
                }
            }
        }
        n
    }

    /// Adds `edges` to the star set at `idx`.
    fn add_edges(&mut self, idx: usize, edges: &Vec<Star>)
        requires
            old(self).wf(),
            idx < old(self).keys@.len(),
        ensures
            final(self).wf(),
            final(self).keys == old(self).keys,
            final(self).requested == old(self).requested,
            final(self).queue == old(self).queue,
            forall|k: SeriesView| #[trigger] final(self).stars_of(k) == if k == old(self).keys@[idx as int].key() {
                old(self).stars_of(k).union(edges@.map_values(|s: Star| s@).to_set())
            } else {
                old(self).stars_of(k)
            },
    {
        let ghost before = *self;
        let ghost ek = self.keys@[idx as int].key();
        let ghost ev = edges@.map_values(|s: Star| s@);
        let n = edges.len();
        let mut i: usize = 0;
        proof {
            before.lemma_seq_at(idx as int);
        }
        while i < n
            invariant
                n == edges@.len(),
                i <= n,
                ev == edges@.map_values(|s: Star| s@),
                self.wf(),
                self.keys == before.keys,
                self.requested == before.requested,
                self.queue == before.queue,
                self.sets@.len() == before.sets@.len(),
                idx < self.keys@.len(),
                ek == self.keys@[idx as int].key(),
                forall|j: int| 0 <= j < self.sets@.len() && j != idx ==> #[trigger] self.sets@[j] == before.sets@[j],
                self.sets@[idx as int]@.to_set() == before.sets@[idx as int]@.to_set().union(ev.take(i as int).to_set()),
            decreases n - i,
        {
            let ghost mid = self.sets@[idx as int]@;
            let star = Star { time: edges[i].time, login: edges[i].login.clone() };
            proof {
                lemma_insert_idempotent(mid, star@);
            }
            self.sets[idx].insert(star);
            proof {
                assert(ev.take(i + 1) =~= ev.take(i as int).push(ev[i as int]));
                lemma_push_to_set(ev.take(i as int), ev[i as int]);
                assert(self.sets@[idx as int]@.to_set() =~= before.sets@[idx as int]@.to_set().union(
                    ev.take(i + 1).to_set(),
                ));
                assert forall|j: int| 0 <= j < self.sets@.len() implies (#[trigger] self.sets@[j]).wf() by {
                    if j != idx {
                        assert(self.sets@[j] == before.sets@[j]);
                    }
                }
            }
            i = i + 1;
        }
        proof {
            assert(ev.take(n as int) =~= ev);
            assert forall|k: SeriesView| #[trigger] self.stars_of(k) == if k == ek {
                before.stars_of(k).union(ev.to_set())
            } else {
                before.stars_of(k)
            } by {
                self.lemma_seq_at(idx as int);
                if k != ek && before.has_key(k) {
                    let j = choose|j: int| 0 <= j < before.keys@.len() && (#[trigger] before.keys@[j]).key() == k;
                    before.lemma_seq_at(j);
                    self.lemma_seq_at(j);
                }
            }
        }
    }

    /// Queues an owner's next page of repositories, if there is one.
    fn process_owner(&mut self, o: &Owner)
        requires
            old(self).wf(),
        ensures
            final(self).wf(),
            final(self).keys == old(self).keys,
            final(self).sets == old(self).sets,
            final(self).requested == old(self).requested,
            final(self).queue_view() == old(self).queue_view() + node_work(DataView::Owner(Some(o@))),
    {
        let ghost q = self.queue_view();
        if o.page_info.has_next_page {
            self.queue.push(Work { series: Series::Owner(o.login.clone()), cursor: o.page_info.end_cursor.duplicate() });
            assert(self.queue_view() =~= q + node_work(DataView::Owner(Some(o@))));
        } else {
            assert(self.queue_view() =~= q + node_work(DataView::Owner(Some(o@))));
        }
    }

    /// Merges a repository's stargazers into its own set and its owner's, and
    /// queues the page of stargazers that comes next: the following one, or
    /// the first where none were asked for.
    fn process_repo(&mut self, r: &Repo)
        requires
            old(self).wf(),
        ensures
            final(self).wf(),
            final(self).requested == old(self).requested,
            final(self).queue_view() == old(self).queue_view() + node_work(DataView::Repo(Some(r@))),
            forall|k: SeriesView| #[trigger] final(self).stars_of(k) == old(self).stars_of(k).union(
                node_edges(DataView::Repo(Some(r@)), k),
            ),
    {
        let ghost q = self.queue_view();
        let ghost before = *self;
        let ghost d = DataView::Repo(Some(r@));
        match &r.stargazers {
            Some(sg) => {
                let ghost e = sg@.edges.to_set();
                let owner_series = Series::Owner(r.owner.clone());
                let oi = self.entry(&owner_series);
                let ghost s1 = *self;
                self.add_edges(oi, &sg.edges);
                let ghost s2 = *self;
                let repo_series = Series::Repo(r.owner.clone(), r.name.clone());
                let ri = self.entry(&repo_series);
                let ghost s3 = *self;
                self.add_edges(ri, &sg.edges);
                let ghost s4 = *self;
                if sg.page_info.has_next_page {
                    self.queue.push(Work {
                        series: Series::Repo(r.owner.clone(), r.name.clone()),
                        cursor: sg.page_info.end_cursor.duplicate(),
                    });
                }
                proof {
                    assert(self.queue_view() =~= q + node_work(d));
                    assert forall|k: SeriesView| #[trigger] self.stars_of(k) == before.stars_of(k).union(node_edges(d, k)) by {
                        assert(self.seq_of(k) == s4.seq_of(k));
                        assert(s1.seq_of(k) == before.seq_of(k));
                        assert(s3.seq_of(k) == s2.seq_of(k));
                        let ok = owner_series.key();
                        let rk = repo_series.key();
                        assert(ok != rk);
                        if k == ok {
                            assert(node_edges(d, k) == e);
                            assert(s2.stars_of(k) == s1.stars_of(k).union(e));
                            assert(s4.stars_of(k) == s3.stars_of(k));
                        } else if k == rk {
                            assert(node_edges(d, k) == e);
                            assert(s2.stars_of(k) == s1.stars_of(k));
                            assert(s4.stars_of(k) == s3.stars_of(k).union(e));
                        } else {
                            assert(node_edges(d, k) =~= Set::<StarView>::empty());
                            assert(s2.stars_of(k) == s1.stars_of(k));
                            assert(s4.stars_of(k) == s3.stars_of(k));
                        }
                        assert(self.stars_of(k) =~= before.stars_of(k).union(node_edges(d, k)));
                    }
                }
            },
            None => {
                self.queue.push(Work { series: Series::Repo(r.owner.clone(), r.name.clone()), cursor: Cursor(None) });
                proof {
                    assert(self.queue_view() =~= q + node_work(d));
                    assert forall|k: SeriesView| #[trigger] self.stars_of(k) == before.stars_of(k).union(node_edges(d, k)) by {
                        assert(self.seq_of(k) == before.seq_of(k));
                        assert(node_edges(d, k) =~= Set::<StarView>::empty());
                        assert(self.stars_of(k) =~= before.stars_of(k).union(node_edges(d, k)));
                    }
                }
            },
        }
    }

    proof fn lemma_step(&self, before: History, done: Seq<DataView>, x: DataView)
        requires
            self.queue_view() == before.queue_view() + continuations(done) + node_work(x),
            forall|k: SeriesView| #[trigger] self.stars_of(k) == before.stars_of(k).union(delivered(done, k)).union(
                node_edges(x, k),
            ),
        ensures
            self.queue_view() == before.queue_view() + continuations(done.push(x)),
            forall|k: SeriesView| #[trigger] self.stars_of(k) == before.stars_of(k).union(delivered(done.push(x), k)),
    {
        assert(done.push(x).drop_last() =~= done);
        assert(continuations(done.push(x)) == continuations(done) + node_work(x));
        assert(before.queue_view() + continuations(done) + node_work(x) =~= before.queue_view() + (continuations(done) + node_work(x)));
        assert forall|k: SeriesView| #[trigger] self.stars_of(k) == before.stars_of(k).union(delivered(done.push(x), k)) by {
            assert(delivered(done.push(x), k) == delivered(done, k).union(node_edges(x, k)));
            assert(before.stars_of(k).union(delivered(done, k)).union(node_edges(x, k)) =~= before.stars_of(k).union(
                delivered(done, k).union(node_edges(x, k)),
            ));
        }
    }

    /// Merges the response to `batch` into the run.
    ///
    /// A top-level message ends the run with that message. Otherwise the first
    /// result that names no entity ends it with the series its slot asked
    /// for. Otherwise every result, then every repository that an owner's
    /// result lists, is merged in order (`process_owner`, `process_repo`), and
    /// the messages of partial errors are handed back. A run that ends keeps no
    /// pending work.
    pub fn absorb(&mut self, batch: &Vec<Work>, response: Response) -> (r: Result<Vec<String>, Failure>)
        requires
            old(self).wf(),
        ensures
            final(self).wf(),
            final(self).requested_view() == old(self).requested_view(),
            response@.message is Some ==> r is Err && r->Err_0@ == FailureView::GitHub(response@.message.unwrap())
                && final(self).queue_view().len() == 0,
            response@.message is None && first_missing(response@.data) < response@.data.len() ==> r is Err
                && r->Err_0@ == missing_failure(
                batch@.map_values(|w: Work| w@),
                first_missing(response@.data) as int,
            ) && final(self).queue_view().len() == 0,
            response@.message is None && first_missing(response@.data) == response@.data.len() ==> r is Ok
                && r->Ok_0@.map_values(|e: String| e@) == response@.errors && final(self).queue_view()
                == old(self).queue_view() + continuations(expanded(response@.data)) && forall|k: SeriesView|
                #[trigger] final(self).stars_of(k) == old(self).stars_of(k).union(
                    delivered(expanded(response@.data), k),
                ),
    {
        let ghost rv = response@;
        let Response { message, data, errors } = response;
        let ghost d = data@.map_values(|x: Data| x@);
        assert(d == rv.data);
        if let Some(m) = message {
            self.queue = Vec::new();
            assert(self.queue_view() =~= Seq::<WorkView>::empty());
            return Err(Failure::GitHub(m));
        }
        let n = data.len();
        let mut i: usize = 0;
        while i < n && !is_missing_node(&data[i])
            invariant
                n == data@.len(),
                i <= n,
                d == data@.map_values(|x: Data| x@),
                forall|k: int| 0 <= k < i ==> !is_missing(#[trigger] d[k]),
            decreases n - i,
        {
            i = i + 1;
        }
        proof {
            lemma_first_missing_is(d, i as int);
        }
        if i < n {
            let f = if i < batch.len() {
                match &batch[i].series {
                    Series::Owner(o) => Failure::NoSuchUser(o.clone()),
                    Series::Repo(o, r) => Failure::NoSuchRepo(o.clone(), r.clone()),
                }
            } else {
                Failure::Decode
            };
            self.queue = Vec::new();
            assert(self.queue_view() =~= Seq::<WorkView>::empty());
            return Err(f);
        }
        let ghost before = *self;
        let mut i: usize = 0;
        proof {
            assert(d.take(0) =~= Seq::<DataView>::empty());
            assert(self.queue_view() =~= before.queue_view() + continuations(d.take(0)));
            assert forall|k: SeriesView| #[trigger] self.stars_of(k) == before.stars_of(k).union(delivered(d.take(0), k)) by {
                assert(before.stars_of(k).union(Set::empty()) =~= before.stars_of(k));
            }
        }
        while i < n
            invariant
                n == data@.len(),
                i <= n,
                d == data@.map_values(|x: Data| x@),
                self.wf(),
                self.requested == before.requested,
                self.queue_view() == before.queue_view() + continuations(d.take(i as int)),
                forall|k: SeriesView| #[trigger] self.stars_of(k) == before.stars_of(k).union(delivered(d.take(i as int), k)),
            decreases n - i,
        {
            let ghost mid = *self;
            let ghost x = d[i as int];
            match &data[i] {
                Data::Owner(Some(o)) => {
                    self.process_owner(o);
                    proof {
                        assert forall|k: SeriesView| #[trigger] self.stars_of(k) == before.stars_of(k).union(delivered(d.take(i as int), k)).union(
                            node_edges(x, k),
                        ) by {
                            assert(self.seq_of(k) == mid.seq_of(k));
                            assert(node_edges(x, k) =~= Set::<StarView>::empty());
                            assert(mid.stars_of(k).union(Set::<StarView>::empty()) =~= mid.stars_of(k));
                        }
                    }
                },
                Data::Repo(Some(r)) => {
                    self.process_repo(r);
                },
                _ => {
                    proof {
                        assert(node_work(x) =~= Seq::<WorkView>::empty());
                        assert(self.queue_view() =~= mid.queue_view() + node_work(x));
                        assert forall|k: SeriesView| #[trigger] self.stars_of(k) == before.stars_of(k).union(delivered(d.take(i as int), k)).union(
                            node_edges(x, k),
                        ) by {
                            assert(node_edges(x, k) =~= Set::<StarView>::empty());
                            assert(mid.stars_of(k).union(Set::<StarView>::empty()) =~= mid.stars_of(k));
                        }
                    }
                },
            }
            proof {
                assert(d.take(i + 1) =~= d.take(i as int).push(x));
                self.lemma_step(before, d.take(i as int), x);
            }
            i = i + 1;
        }
        let mut i: usize = 0;
        proof {
            assert(d.take(n as int) =~= d);
            assert(d.take(0) =~= Seq::<DataView>::empty());
            assert(d + fanout(d.take(0)) =~= d);
        }
        while i < n
            invariant
                n == data@.len(),
                i <= n,
                d == data@.map_values(|x: Data| x@),
                self.wf(),
                self.requested == before.requested,
                self.queue_view() == before.queue_view() + continuations(d + fanout(d.take(i as int))),
                forall|k: SeriesView| #[trigger] self.stars_of(k) == before.stars_of(k).union(
                    delivered(d + fanout(d.take(i as int)), k),
                ),
            decreases n - i,
        {
            let ghost done = d + fanout(d.take(i as int));
            let ghost kids = children(d[i as int]);
            match &data[i] {
                Data::Owner(Some(o)) => {
                    let m = o.nodes.len();
                    let mut j: usize = 0;
                    proof {
                        assert(kids.take(0) =~= Seq::<DataView>::empty());
                        assert(done + kids.take(0) =~= done);
                    }
                    while j < m
                        invariant
                            m == o.nodes@.len(),
                            j <= m,
                            kids == o@.nodes.map_values(|r: crate::decode::RepoView| DataView::Repo(Some(r))),
                            self.wf(),
                            self.requested == before.requested,
                            self.queue_view() == before.queue_view() + continuations(done + kids.take(j as int)),
                            forall|k: SeriesView| #[trigger] self.stars_of(k) == before.stars_of(k).union(
                                delivered(done + kids.take(j as int), k),
                            ),
                        decreases m - j,
                    {
                        let ghost x = kids[j as int];
                        assert(x == DataView::Repo(Some(o.nodes@[j as int]@)));
                        self.process_repo(&o.nodes[j]);
                        proof {
                            assert(done + kids.take(j + 1) =~= (done + kids.take(j as int)).push(x));
                            self.lemma_step(before, done + kids.take(j as int), x);
                        }
                        j = j + 1;
                    }
                    proof {
                        assert(kids.take(m as int) =~= kids);
                    }
                },
                _ => {
                    proof {
                        assert(kids =~= Seq::<DataView>::empty());
                        assert(done + kids =~= done);
                    }
                },
            }
            proof {
                assert(d.take(i + 1).drop_last() =~= d.take(i as int));
                assert(d.take(i + 1).last() == d[i as int]);
                assert(fanout(d.take(i + 1)) == fanout(d.take(i as int)) + kids);
                assert(d + fanout(d.take(i + 1)) =~= done + kids);
            }
            i = i + 1;
        }
        proof {
            assert(d.take(n as int) =~= d);
        }
        Ok(errors)
    }

    /// The position of the star set for the identity of `s`.
    fn position(&self, s: &Series) -> (idx: usize)
        requires
            self.keys@.len() == self.sets@.len(),
            self.has_key(s.key()),
        ensures
            idx < self.keys@.len(),
            self.keys@[idx as int].key() == s.key(),
    {
        let n = self.keys.len();
        let mut i: usize = 0;
        while i < n
            invariant
                n == self.keys@.len(),
                i <= n,
                forall|j: int| 0 <= j < i ==> (#[trigger] self.keys@[j]).key() != s.key(),
            decreases n - i,
        {
            if self.keys[i].same(s) {
                return i;
            }
            i = i + 1;
        }
        proof {
            let j = choose|j: int| 0 <= j < self.keys@.len() && (#[trigger] self.keys@[j]).key() == s.key();
            assert(self.keys@[j].key() != s.key());
        }
        0
    }

    /// Closes every star set at `now` (see `StarSet::close`) and gives, for
    /// each requested series in order, the series and its plotted points.
    pub fn finish(&mut self, now: i64) -> (r: Vec<(Series, Vec<(i64, usize)>)>)
        requires
            old(self).wf(),
        ensures
            finished_as(*old(self), r@, now),
            forall|k: SeriesView| stars_sorted(#[trigger] old(self).seq_of(k)),
    {
        proof {
            assert forall|k: SeriesView| stars_sorted(#[trigger] old(self).seq_of(k)) by {
                old(self).lemma_seq_sorted(k);
            }
        }
        let ghost before = *self;
        let n = self.sets.len();
        let mut tails: Vec<bool> = Vec::new();
        let mut i: usize = 0;
        while i < n
            invariant
                n == self.sets@.len(),
                n == self.keys@.len(),
                i <= n,
                self.keys == before.keys,
                self.requested == before.requested,
                before.wf(),
                tails@.len() == i,
                forall|j: int| 0 <= j < n ==> (#[trigger] self.sets@[j]).wf(),
                forall|j: int|
                    0 <= j < i ==> (#[trigger] self.sets@[j])@ == closed_stars(before.sets@[j]@, now) && tails@[j]
                        == crate::stars::needs_tail(before.sets@[j]@, now),
                forall|j: int| i <= j < n ==> #[trigger] self.sets@[j] == before.sets@[j],
            decreases n - i,
        {
            let t = self.sets[i].close(now);
            tails.push(t);
            i = i + 1;
        }
        assert(i == n);
        assert forall|j: int| 0 <= j < n implies (#[trigger] self.sets@[j])@ == closed_stars(before.sets@[j]@, now)
            && tails@[j] == crate::stars::needs_tail(before.sets@[j]@, now) by {
            assert(j < i);
        }
        let m = self.requested.len();
        let mut out: Vec<(Series, Vec<(i64, usize)>)> = Vec::new();
        let mut i: usize = 0;
        while i < m
            invariant
                n == self.sets@.len(),
                n == self.keys@.len(),
                m == self.requested@.len(),
                i <= m,
                self.keys == before.keys,
                self.requested == before.requested,
                before.wf(),
                tails@.len() == n,
                forall|j: int|
                    0 <= j < n ==> (#[trigger] self.sets@[j])@ == closed_stars(before.sets@[j]@, now) && tails@[j]
                        == crate::stars::needs_tail(before.sets@[j]@, now),
                out@.len() == i,
                forall|j: int|
                    0 <= j < i ==> (#[trigger] out@[j]).0@ == before.requested@[j]@ && points_view(out@[j].1@)
                        == series_points(before.seq_of(before.requested@[j].key()), now),
            decreases m - i,
        {
            let s = &self.requested[i];
            assert(before.has_key(before.requested@[i as int].key()));
            let idx = self.position(s);
            let pts = self.sets[idx].points(tails[idx]);
            proof {
                before.lemma_seq_at(idx as int);
                assert(points_view(pts@) =~= series_points(before.seq_of(s.key()), now));
            }
            out.push((s.duplicate(), pts));
            i = i + 1;
        }
        out
    }
}

} // verus!

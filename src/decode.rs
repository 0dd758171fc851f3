//! Decoding of the API's response into typed nodes, one per aliased selection.
use crate::json::{
    field, get_field, has_prefix, optional_text, optional_text_of, required_bool, required_bool_of,
    required_text, required_text_of, starts_with, Json,
};
use crate::series::Cursor;
use crate::stars::{Star, StarView};
use vstd::prelude::*;

verus! {

/// What chrono reads from a text as a UTC date and time, in whole seconds
/// since the Unix epoch; `None` where the text is not such a date and time.
pub uninterp spec fn utc_seconds(s: Seq<char>) -> Option<i64>;

/// Relies on chrono's `FromStr for DateTime<Utc>`, the parser its serde support
/// uses for a `DateTime<Utc>` (RFC 3339, a space allowed for the `T`), and on
/// `DateTime::timestamp`, the whole seconds since the Unix epoch. Both depend
/// on the text alone.
#[verifier::external_body]
fn parse_time(s: &str) -> (r: Option<i64>)
    ensures
        r == utc_seconds(s@),
{
    match s.parse::<chrono::DateTime<chrono::Utc>>() {
        Ok(t) => Some(t.timestamp()),
        Err(_) => None,
    }
}

/// Whether a paginated list goes on, and the cursor that resumes it.
#[derive(Debug)]
pub struct PageInfo {
    pub has_next_page: bool,
    pub end_cursor: Cursor,
}

pub struct PageInfoView {
    pub has_next_page: bool,
    pub end_cursor: Option<Seq<char>>,
}

impl View for PageInfo {
    type V = PageInfoView;

    open spec fn view(&self) -> PageInfoView {
        PageInfoView { has_next_page: self.has_next_page, end_cursor: self.end_cursor.view_opt() }
    }
}

/// One page of a repository's stargazers.
#[derive(Debug)]
pub struct Stargazers {
    pub page_info: PageInfo,
    pub edges: Vec<Star>,
}

pub struct StargazersView {
    pub page_info: PageInfoView,
    pub edges: Seq<StarView>,
}

impl View for Stargazers {
    type V = StargazersView;

    open spec fn view(&self) -> StargazersView {
        StargazersView { page_info: self.page_info@, edges: self.edges@.map_values(|s: Star| s@) }
    }
}

/// A repository: its name, its owner's login, and a page of its stargazers
/// where they were asked for.
#[derive(Debug)]
pub struct Repo {
    pub name: String,
    pub owner: String,
    pub stargazers: Option<Stargazers>,
}

pub struct RepoView {
    pub name: Seq<char>,
    pub owner: Seq<char>,
    pub stargazers: Option<StargazersView>,
}

impl View for Repo {
    type V = RepoView;

    open spec fn view(&self) -> RepoView {
        RepoView {
            name: self.name@,
            owner: self.owner@,
            stargazers: match self.stargazers {
                Some(s) => Some(s@),
                None => None,
            },
        }
    }
}

/// An owner: its login and a page of its repositories.
#[derive(Debug)]
pub struct Owner {
    pub login: String,
    pub page_info: PageInfo,
    pub nodes: Vec<Repo>,
}

pub struct OwnerView {
    pub login: Seq<char>,
    pub page_info: PageInfoView,
    pub nodes: Seq<RepoView>,
}

impl View for Owner {
    type V = OwnerView;

    open spec fn view(&self) -> OwnerView {
        OwnerView { login: self.login@, page_info: self.page_info@, nodes: self.nodes@.map_values(|r: Repo| r@) }
    }
}

/// One selection's result; `None` where the entity does not exist.
#[derive(Debug)]
pub enum Data {
    Owner(Option<Owner>),
    Repo(Option<Repo>),
}

pub enum DataView {
    Owner(Option<OwnerView>),
    Repo(Option<RepoView>),
}

impl View for Data {
    type V = DataView;

    open spec fn view(&self) -> DataView {
        match self {
            Data::Owner(Some(o)) => DataView::Owner(Some(o@)),
            Data::Owner(None) => DataView::Owner(None),
            Data::Repo(Some(r)) => DataView::Repo(Some(r@)),
            Data::Repo(None) => DataView::Repo(None),
        }
    }
}

/// A response: the fatal `message`, the results in selection order, and the
/// messages of partial errors.
#[derive(Debug)]
pub struct Response {
    pub message: Option<String>,
    pub data: Vec<Data>,
    pub errors: Vec<String>,
}

pub struct ResponseView {
    pub message: Option<Seq<char>>,
    pub data: Seq<DataView>,
    pub errors: Seq<Seq<char>>,
}

impl View for Response {
    type V = ResponseView;

    open spec fn view(&self) -> ResponseView {
        ResponseView {
            message: match self.message {
                Some(m) => Some(m@),
                None => None,
            },
            data: self.data@.map_values(|d: Data| d@),
            errors: self.errors@.map_values(|e: String| e@),
        }
    }
}

/// The view of an optional decoded value.
pub open spec fn view_of<T: View>(r: Option<T>) -> Option<T::V> {
    match r {
        Some(x) => Some(x@),
        None => None,
    }
}

pub open spec fn spec_page_info(j: Json) -> Option<PageInfoView> {
    match j {
        Json::Object(e) => match (
            required_bool(field(e@, "hasNextPage"@)),
            optional_text(field(e@, "endCursor"@)),
        ) {
            (Some(h), Some(c)) => Some(PageInfoView { has_next_page: h, end_cursor: c }),
            _ => None,
        },
        _ => None,
    }
}

/// An account object: its login.
pub open spec fn spec_account(j: Json) -> Option<Seq<char>> {
    match j {
        Json::Object(e) => required_text(field(e@, "login"@)),
        _ => None,
    }
}

/// A stargazer edge: when it was starred, and the account's login.
pub open spec fn spec_star(j: Json) -> Option<StarView> {
    match j {
        Json::Object(e) => match required_text(field(e@, "starredAt"@)) {
            Some(t) => match (utc_seconds(t), field(e@, "node"@)) {
                (Some(secs), Some(n)) => match spec_account(n) {
                    Some(login) => Some((secs, login)),
                    None => None,
                },
                _ => None,
            },
            None => None,
        },
        _ => None,
    }
}

/// A list of stargazer edges; a `null` edge (a deleted account) is dropped.
pub open spec fn spec_edges(items: Seq<Json>) -> Option<Seq<StarView>>
    decreases items.len(),
{
    if items.len() == 0 {
        Some(Seq::empty())
    } else {
        match spec_edges(items.drop_last()) {
            Some(init) => match items.last() {
                Json::Null => Some(init),
                x => match spec_star(x) {
                    Some(s) => Some(init.push(s)),
                    None => None,
                },
            },
            None => None,
        }
    }
}

pub open spec fn spec_stargazers(j: Json) -> Option<StargazersView> {
    match j {
        Json::Object(e) => match (field(e@, "pageInfo"@), field(e@, "edges"@)) {
            (Some(p), Some(Json::Array(v))) => match (spec_page_info(p), spec_edges(v@)) {
                (Some(pi), Some(edges)) => Some(StargazersView { page_info: pi, edges }),
                _ => None,
            },
            _ => None,
        },
        _ => None,
    }
}

/// The stargazers of a repository where they were asked for: absent or
/// `null` is `Some(None)`; outer `None` where they do not decode.
pub open spec fn spec_optional_stargazers(f: Option<Json>) -> Option<Option<StargazersView>> {
    match f {
        None => Some(None),
        Some(Json::Null) => Some(None),
        Some(x) => match spec_stargazers(x) {
            Some(s) => Some(Some(s)),
            None => None,
        },
    }
}

pub open spec fn spec_repo(j: Json) -> Option<RepoView> {
    match j {
        Json::Object(e) => match (required_text(field(e@, "name"@)), field(e@, "owner"@)) {
            (Some(name), Some(o)) => match (spec_account(o), spec_optional_stargazers(field(e@, "stargazers"@))) {
                (Some(owner), Some(stargazers)) => Some(RepoView { name, owner, stargazers }),
                _ => None,
            },
            _ => None,
        },
        _ => None,
    }
}

pub open spec fn spec_repos(items: Seq<Json>) -> Option<Seq<RepoView>>
    decreases items.len(),
{
    if items.len() == 0 {
        Some(Seq::empty())
    } else {
        match (spec_repos(items.drop_last()), spec_repo(items.last())) {
            (Some(init), Some(r)) => Some(init.push(r)),
            _ => None,
        }
    }
}

pub open spec fn spec_owner(j: Json) -> Option<OwnerView> {
    match j {
        Json::Object(e) => match (required_text(field(e@, "login"@)), field(e@, "repositories"@)) {
            (Some(login), Some(Json::Object(re))) => match (field(re@, "pageInfo"@), field(re@, "nodes"@)) {
                (Some(p), Some(Json::Array(v))) => match (spec_page_info(p), spec_repos(v@)) {
                    (Some(pi), Some(nodes)) => Some(OwnerView { login, page_info: pi, nodes }),
                    _ => None,
                },
                _ => None,
            },
            _ => None,
        },
        _ => None,
    }
}

/// One member of the `data` object: a key that begins with `owner` holds an
/// owner, one that begins with `repo` a repository, `null` if it does not
/// exist; other keys are skipped (`Some(None)`).
pub open spec fn spec_entry(key: Seq<char>, j: Json) -> Option<Option<DataView>> {
    if has_prefix(key, "owner"@) {
        match j {
            Json::Null => Some(Some(DataView::Owner(None))),
            x => match spec_owner(x) {
                Some(o) => Some(Some(DataView::Owner(Some(o)))),
                None => None,
            },
        }
    } else if has_prefix(key, "repo"@) {
        match j {
            Json::Null => Some(Some(DataView::Repo(None))),
            x => match spec_repo(x) {
                Some(r) => Some(Some(DataView::Repo(Some(r)))),
                None => None,
            },
        }
    } else {
        Some(None)
    }
}

/// The members of the `data` object, decoded in document order.
pub open spec fn spec_data(entries: Seq<(String, Json)>) -> Option<Seq<DataView>>
    decreases entries.len(),
{
    if entries.len() == 0 {
        Some(Seq::empty())
    } else {
        match (spec_data(entries.drop_last()), spec_entry(entries.last().0@, entries.last().1)) {
            (Some(init), Some(Some(d))) => Some(init.push(d)),
            (Some(init), Some(None)) => Some(init),
            _ => None,
        }
    }
}

/// The `data` member: absent or `null` holds no results.
pub open spec fn spec_data_field(f: Option<Json>) -> Option<Seq<DataView>> {
    match f {
        None => Some(Seq::empty()),
        Some(Json::Null) => Some(Seq::empty()),
        Some(Json::Object(e)) => spec_data(e@),
        _ => None,
    }
}

/// A list of error objects: the message of each.
pub open spec fn spec_messages(items: Seq<Json>) -> Option<Seq<Seq<char>>>
    decreases items.len(),
{
    if items.len() == 0 {
        Some(Seq::empty())
    } else {
        match (spec_messages(items.drop_last()), items.last()) {
            (Some(init), Json::Object(e)) => match required_text(field(e@, "message"@)) {
                Some(m) => Some(init.push(m)),
                None => None,
            },
            _ => None,
        }
    }
}

/// The `errors` member: absent holds none.
pub open spec fn spec_errors_field(f: Option<Json>) -> Option<Seq<Seq<char>>> {
    match f {
        None => Some(Seq::empty()),
        Some(Json::Array(v)) => spec_messages(v@),
        _ => None,
    }
}

/// A whole response, or `None` where it does not have the expected shape.
pub open spec fn spec_response(j: Json) -> Option<ResponseView> {
    match j {
        Json::Object(e) => match (
            optional_text(field(e@, "message"@)),
            spec_data_field(field(e@, "data"@)),
            spec_errors_field(field(e@, "errors"@)),
        ) {
            (Some(message), Some(data), Some(errors)) => Some(ResponseView { message, data, errors }),
            _ => None,
        },
        _ => None,
    }
}

pub fn decode_page_info(j: &Json) -> (r: Option<PageInfo>)
    ensures
        view_of(r) == spec_page_info(*j),
{
    match j {
        Json::Object(e) => {
            let h = required_bool_of(get_field(e, "hasNextPage"));
            let c = optional_text_of(get_field(e, "endCursor"));
            match (h, c) {
                (Some(h), Some(c)) => Some(PageInfo { has_next_page: h, end_cursor: Cursor(c) }),
                _ => None,
            }
        },
        _ => None,
    }
}

fn decode_account(j: &Json) -> (r: Option<String>)
    ensures
        match r {
            Some(s) => spec_account(*j) == Some(s@),
            None => spec_account(*j) == None::<Seq<char>>,
        },
{
    match j {
        Json::Object(e) => required_text_of(get_field(e, "login")),
        _ => None,
    }
}

pub fn decode_star(j: &Json) -> (r: Option<Star>)
    ensures
        view_of(r) == spec_star(*j),
{
    match j {
        Json::Object(e) => match required_text_of(get_field(e, "starredAt")) {
            Some(t) => match (parse_time(t.as_str()), get_field(e, "node")) {
                (Some(secs), Some(n)) => match decode_account(n) {
                    Some(login) => Some(Star { time: secs, login }),
                    None => None,
                },
                _ => None,
            },
            None => None,
        },
        _ => None,
    }
}

proof fn lemma_edges_fail(items: Seq<Json>, i: int)
    requires
        0 <= i <= items.len(),
        spec_edges(items.take(i)) is None,
    ensures
        spec_edges(items) is None,
    decreases items.len() - i,
{
    if i < items.len() {
        assert(items.take(i + 1).drop_last() =~= items.take(i));
        lemma_edges_fail(items, i + 1);
    } else {
        assert(items.take(i) =~= items);
    }
}

/// Decodes stargazer edges, dropping `null` ones.
pub fn decode_edges(items: &Vec<Json>) -> (r: Option<Vec<Star>>)
    ensures
        match r {
            Some(v) => spec_edges(items@) == Some(v@.map_values(|s: Star| s@)),
            None => spec_edges(items@) is None,
        },
{
    let mut out: Vec<Star> = Vec::new();
    let mut i: usize = 0;
    assert(items@.take(0) =~= Seq::<Json>::empty());
    assert(out@.map_values(|s: Star| s@) =~= Seq::<StarView>::empty());
    while i < items.len()
        invariant
            i <= items@.len(),
            spec_edges(items@.take(i as int)) == Some(out@.map_values(|s: Star| s@)),
        decreases items.len() - i,
    {
        let ghost before = out@.map_values(|s: Star| s@);
        assert(items@.take(i + 1).drop_last() =~= items@.take(i as int));
        assert(items@.take(i + 1).last() == items@[i as int]);
        match &items[i] {
            Json::Null => {},
            x => match decode_star(x) {
                Some(s) => {
                    out.push(s);
                    assert(out@.map_values(|s: Star| s@) =~= before.push(out@.last()@));
                },
                None => {
                    proof {
                        lemma_edges_fail(items@, i + 1);
                    }
                    return None;
                },
            },
        }
        i = i + 1;
    }
    assert(items@.take(i as int) =~= items@);
    Some(out)
}

pub fn decode_stargazers(j: &Json) -> (r: Option<Stargazers>)
    ensures
        view_of(r) == spec_stargazers(*j),
{
    match j {
        Json::Object(e) => match (get_field(e, "pageInfo"), get_field(e, "edges")) {
            (Some(p), Some(Json::Array(v))) => match (decode_page_info(p), decode_edges(v)) {
                (Some(pi), Some(edges)) => Some(Stargazers { page_info: pi, edges }),
                _ => None,
            },
            _ => None,
        },
        _ => None,
    }
}

pub fn decode_repo(j: &Json) -> (r: Option<Repo>)
    ensures
        view_of(r) == spec_repo(*j),
{
    match j {
        Json::Object(e) => match (required_text_of(get_field(e, "name")), get_field(e, "owner")) {
            (Some(name), Some(o)) => {
                let owner = decode_account(o);
                let f = get_field(e, "stargazers");
                let stargazers = match f {
                    None => Some(None),
                    Some(Json::Null) => Some(None),
                    Some(x) => match decode_stargazers(x) {
                        Some(s) => Some(Some(s)),
                        None => None,
                    },
                };
                match (owner, stargazers) {
                    (Some(owner), Some(stargazers)) => Some(Repo { name, owner, stargazers }),
                    _ => None,
                }
            },
            _ => None,
        },
        _ => None,
    }
}

proof fn lemma_repos_fail(items: Seq<Json>, i: int)
    requires
        0 <= i <= items.len(),
        spec_repos(items.take(i)) is None,
    ensures
        spec_repos(items) is None,
    decreases items.len() - i,
{
    if i < items.len() {
        assert(items.take(i + 1).drop_last() =~= items.take(i));
        lemma_repos_fail(items, i + 1);
    } else {
        assert(items.take(i) =~= items);
    }
}

pub fn decode_repos(items: &Vec<Json>) -> (r: Option<Vec<Repo>>)
    ensures
        match r {
            Some(v) => spec_repos(items@) == Some(v@.map_values(|x: Repo| x@)),
            None => spec_repos(items@) is None,
        },
{
    let mut out: Vec<Repo> = Vec::new();
    let mut i: usize = 0;
    assert(items@.take(0) =~= Seq::<Json>::empty());
    assert(out@.map_values(|x: Repo| x@) =~= Seq::<RepoView>::empty());
    while i < items.len()
        invariant
            i <= items@.len(),
            spec_repos(items@.take(i as int)) == Some(out@.map_values(|x: Repo| x@)),
        decreases items.len() - i,
    {
        let ghost before = out@.map_values(|x: Repo| x@);
        assert(items@.take(i + 1).drop_last() =~= items@.take(i as int));
        assert(items@.take(i + 1).last() == items@[i as int]);
        match decode_repo(&items[i]) {
            Some(x) => {
                out.push(x);
                assert(out@.map_values(|x: Repo| x@) =~= before.push(out@.last()@));
            },
            None => {
                proof {
                    lemma_repos_fail(items@, i + 1);
                }
                return None;
            },
        }
        i = i + 1;
    }
    assert(items@.take(i as int) =~= items@);
    Some(out)
}

pub fn decode_owner(j: &Json) -> (r: Option<Owner>)
    ensures
        view_of(r) == spec_owner(*j),
{
    match j {
        Json::Object(e) => match (required_text_of(get_field(e, "login")), get_field(e, "repositories")) {
            (Some(login), Some(Json::Object(re))) => match (get_field(re, "pageInfo"), get_field(re, "nodes")) {
                (Some(p), Some(Json::Array(v))) => match (decode_page_info(p), decode_repos(v)) {
                    (Some(pi), Some(nodes)) => Some(Owner { login, page_info: pi, nodes }),
                    _ => None,
                },
                _ => None,
            },
            _ => None,
        },
        _ => None,
    }
}

fn decode_entry(key: &String, j: &Json) -> (r: Option<Option<Data>>)
    ensures
        match r {
            Some(Some(d)) => spec_entry(key@, *j) == Some(Some(d@)),
            Some(None) => spec_entry(key@, *j) == Some(None::<DataView>),
            None => spec_entry(key@, *j) is None,
        },
{
    if starts_with(key.as_str(), "owner") {
        match j {
            Json::Null => Some(Some(Data::Owner(None))),
            x => match decode_owner(x) {
                Some(o) => Some(Some(Data::Owner(Some(o)))),
                None => None,
            },
        }
    } else if starts_with(key.as_str(), "repo") {
        match j {
            Json::Null => Some(Some(Data::Repo(None))),
            x => match decode_repo(x) {
                Some(r) => Some(Some(Data::Repo(Some(r)))),
                None => None,
            },
        }
    } else {
        Some(None)
    }
}

proof fn lemma_data_fail(entries: Seq<(String, Json)>, i: int)
    requires
        0 <= i <= entries.len(),
        spec_data(entries.take(i)) is None,
    ensures
        spec_data(entries) is None,
    decreases entries.len() - i,
{
    if i < entries.len() {
        assert(entries.take(i + 1).drop_last() =~= entries.take(i));
        lemma_data_fail(entries, i + 1);
    } else {
        assert(entries.take(i) =~= entries);
    }
}

/// Decodes the members of the `data` object in document order: one node for
/// each `owner...` or `repo...` member, other members skipped.
pub fn decode_data(entries: &Vec<(String, Json)>) -> (r: Option<Vec<Data>>)
    ensures
        match r {
            Some(v) => spec_data(entries@) == Some(v@.map_values(|d: Data| d@)),
            None => spec_data(entries@) is None,
        },
{
    let mut out: Vec<Data> = Vec::new();
    let mut i: usize = 0;
    assert(entries@.take(0) =~= Seq::<(String, Json)>::empty());
    assert(out@.map_values(|d: Data| d@) =~= Seq::<DataView>::empty());
    while i < entries.len()
        invariant
            i <= entries@.len(),
            spec_data(entries@.take(i as int)) == Some(out@.map_values(|d: Data| d@)),
        decreases entries.len() - i,
    {
        let ghost before = out@.map_values(|d: Data| d@);
        assert(entries@.take(i + 1).drop_last() =~= entries@.take(i as int));
        assert(entries@.take(i + 1).last() == entries@[i as int]);
        match decode_entry(&entries[i].0, &entries[i].1) {
            Some(Some(d)) => {
                out.push(d);
                assert(out@.map_values(|d: Data| d@) =~= before.push(out@.last()@));
            },
            Some(None) => {},
            None => {
                proof {
                    lemma_data_fail(entries@, i + 1);
                }
                return None;
            },
        }
        i = i + 1;
    }
    assert(entries@.take(i as int) =~= entries@);
    Some(out)
}

proof fn lemma_messages_fail(items: Seq<Json>, i: int)
    requires
        0 <= i <= items.len(),
        spec_messages(items.take(i)) is None,
    ensures
        spec_messages(items) is None,
    decreases items.len() - i,
{
    if i < items.len() {
        assert(items.take(i + 1).drop_last() =~= items.take(i));
        lemma_messages_fail(items, i + 1);
    } else {
        assert(items.take(i) =~= items);
    }
}

fn decode_messages(items: &Vec<Json>) -> (r: Option<Vec<String>>)
    ensures
        match r {
            Some(v) => spec_messages(items@) == Some(v@.map_values(|e: String| e@)),
            None => spec_messages(items@) is None,
        },
{
    let mut out: Vec<String> = Vec::new();
    let mut i: usize = 0;
    assert(items@.take(0) =~= Seq::<Json>::empty());
    assert(out@.map_values(|e: String| e@) =~= Seq::<Seq<char>>::empty());
    while i < items.len()
        invariant
            i <= items@.len(),
            spec_messages(items@.take(i as int)) == Some(out@.map_values(|e: String| e@)),
        decreases items.len() - i,
    {
        let ghost before = out@.map_values(|e: String| e@);
        assert(items@.take(i + 1).drop_last() =~= items@.take(i as int));
        assert(items@.take(i + 1).last() == items@[i as int]);
        let m = match &items[i] {
            Json::Object(e) => required_text_of(get_field(e, "message")),
            _ => None,
        };
        match m {
            Some(m) => {
                out.push(m);
                assert(out@.map_values(|e: String| e@) =~= before.push(out@.last()@));
            },
            None => {
                proof {
                    lemma_messages_fail(items@, i + 1);
                }
                return None;
            },
        }
        i = i + 1;
    }
    assert(items@.take(i as int) =~= items@);
    Some(out)
}

/// Decodes a whole response; `None` where it does not have the expected shape.
pub fn decode_response(j: &Json) -> (r: Option<Response>)
    ensures
        view_of(r) == spec_response(*j),
{
    match j {
        Json::Object(e) => {
            let message = optional_text_of(get_field(e, "message"));
            let data = match get_field(e, "data") {
                None => Some(Vec::new()),
                Some(Json::Null) => Some(Vec::new()),
                Some(Json::Object(d)) => decode_data(d),
                _ => None,
            };
            let errors = match get_field(e, "errors") {
                None => Some(Vec::new()),
                Some(Json::Array(v)) => decode_messages(v),
                _ => None,
            };
            match (message, data, errors) {
                (Some(message), Some(data), Some(errors)) => {
                    let r = Response { message, data, errors };
                    assert(r@.data == spec_data_field(field(e@, "data"@)).unwrap());
                    assert(r@.errors == spec_errors_field(field(e@, "errors"@)).unwrap());
                    Some(r)
                },
                _ => None,
            }
        },
        _ => None,
    }
}

/// The positions of the members of the `data` object that are selections
/// (`owner...` or `repo...`), in document order.
pub open spec fn selection_positions(entries: Seq<(String, Json)>) -> Seq<int>
    decreases entries.len(),
{
    if entries.len() == 0 {
        Seq::empty()
    } else if spec_entry(entries.last().0@, entries.last().1) matches Some(Some(_)) {
        selection_positions(entries.drop_last()).push(entries.len() - 1)
    } else {
        selection_positions(entries.drop_last())
    }
}

/// Where every member of the `data` object either is skipped (its key is not
/// a selection's) or decodes, the results are the selections in document
/// order: result `j` is the decoding of the `j`-th selection, and every
/// selection has its result. So with the aliases of a batch in slot order,
/// slot `i` of the response answers slot `i` of the batch.
pub proof fn lemma_data_keeps_order(entries: Seq<(String, Json)>)
    requires
        forall|i: int| 0 <= i < entries.len() ==> (#[trigger] spec_entry(entries[i].0@, entries[i].1)) is Some,
    ensures
        spec_data(entries) is Some,
        spec_data(entries).unwrap().len() == selection_positions(entries).len(),
        forall|j: int|
            0 <= j < selection_positions(entries).len() ==> 0 <= #[trigger] selection_positions(entries)[j]
                < entries.len() && spec_entry(
                entries[selection_positions(entries)[j]].0@,
                entries[selection_positions(entries)[j]].1,
            ) == Some(Some(spec_data(entries).unwrap()[j])),
        forall|j1: int, j2: int|
            0 <= j1 < j2 < selection_positions(entries).len() ==> #[trigger] selection_positions(entries)[j1]
                < #[trigger] selection_positions(entries)[j2],
        forall|i: int|
            0 <= i < entries.len() && (#[trigger] spec_entry(entries[i].0@, entries[i].1) matches Some(Some(_)))
                ==> exists|j: int| 0 <= j < selection_positions(entries).len() && selection_positions(entries)[j] == i,
    decreases entries.len(),
{
    if entries.len() > 0 {
        let init = entries.drop_last();
        let last = entries.len() - 1;
        assert forall|i: int| 0 <= i < init.len() implies (#[trigger] spec_entry(init[i].0@, init[i].1)) is Some by {
            assert(init[i] == entries[i]);
            assert(spec_entry(entries[i].0@, entries[i].1) is Some);
        }
        lemma_data_keeps_order(init);
        assert(spec_entry(entries[last].0@, entries[last].1) is Some);
        let pi = selection_positions(init);
        let p = selection_positions(entries);
        let di = spec_data(init).unwrap();
        let d = spec_data(entries).unwrap();
        assert forall|j: int| 0 <= j < pi.len() implies p[j] == pi[j] && d[j] == di[j] && entries[pi[j]] == init[pi[j]] by {}
        assert forall|i: int|
            0 <= i < entries.len() && (#[trigger] spec_entry(entries[i].0@, entries[i].1) matches Some(Some(_)))
                implies exists|j: int| 0 <= j < p.len() && p[j] == i by {
            if i < last {
                assert(init[i] == entries[i]);
                assert(spec_entry(init[i].0@, init[i].1) matches Some(Some(_)));
                let j = choose|j: int| 0 <= j < pi.len() && pi[j] == i;
                assert(p[j] == i);
            } else {
                assert(p[pi.len() as int] == i);
            }
        }
    }
}

} // verus!

//! The query document: one aliased selection per unit of pending work.
use crate::series::{cursor_text, Cursor, Series, SeriesView};
use crate::text::{decimal, decimal_string};
use vstd::prelude::*;
use vstd::string::*;

verus! {

/// A pending page request: the series to fetch and where its list resumes.
#[derive(Debug)]
pub struct Work {
    pub series: Series,
    pub cursor: Cursor,
}

/// The mathematical value of a `Work`.
pub struct WorkView {
    pub series: SeriesView,
    pub cursor: Option<Seq<char>>,
}

impl View for Work {
    type V = WorkView;

    open spec fn view(&self) -> WorkView {
        WorkView { series: self.series@, cursor: self.cursor.view_opt() }
    }
}

pub const OWNER_ALIAS: &'static str = "\n        owner";

pub const OWNER_LOGIN: &'static str = ": repositoryOwner(login: \"";

pub const OWNER_AFTER: &'static str = "\") {\n          login\n          repositories(after: ";

pub const OWNER_TAIL: &'static str = ", first: 100, isFork: false, privacy: PUBLIC, ownerAffiliations: [OWNER]) {\n            pageInfo {\n              hasNextPage\n              endCursor\n            }\n            nodes {\n              name\n              owner {\n                login\n              }\n            }\n          }\n        }\n    ";

pub const REPO_ALIAS: &'static str = "\n        repo";

pub const REPO_OWNER: &'static str = ": repository(owner: \"";

pub const REPO_NAME: &'static str = "\", name: \"";

pub const REPO_AFTER: &'static str = "\") {\n          name\n          owner {\n            login\n          }\n          stargazers(after: ";

pub const REPO_TAIL: &'static str = ", first: 100) {\n            pageInfo {\n              hasNextPage\n              endCursor\n            }\n            edges {\n              node {\n                login\n              }\n              starredAt\n            }\n          }\n        }\n    ";

pub const DOC_OPEN: &'static str = "{\n";

pub const DOC_CLOSE: &'static str = "}\n";

/// The selection aliased `owner{i}`: the owner's login and one page of its
/// own public repositories that are not forks, each with name and owner.
pub open spec fn owner_query_text(i: nat, login: Seq<char>, cursor: Option<Seq<char>>) -> Seq<char> {
    OWNER_ALIAS@ + decimal(i) + OWNER_LOGIN@ + login + OWNER_AFTER@ + cursor_text(cursor) + OWNER_TAIL@
}

/// The selection aliased `repo{i}`: the repository's name and owner and one
/// page of its stargazers, each with login and time of starring.
pub open spec fn repo_query_text(i: nat, owner: Seq<char>, repo: Seq<char>, cursor: Option<Seq<char>>) -> Seq<char> {
    REPO_ALIAS@ + decimal(i) + REPO_OWNER@ + owner + REPO_NAME@ + repo + REPO_AFTER@ + cursor_text(cursor)
        + REPO_TAIL@
}

/// The selection for the work in slot `i` of a batch.
pub open spec fn work_query_text(i: nat, w: WorkView) -> Seq<char> {
    match w.series {
        SeriesView::Owner(o) => owner_query_text(i, o, w.cursor),
        SeriesView::Repo(o, r) => repo_query_text(i, o, r, w.cursor),
    }
}

/// The selections for the first `n` slots of a batch, in slot order.
pub open spec fn selections(batch: Seq<WorkView>, n: nat) -> Seq<char>
    decreases n,
{
    if n == 0 {
        Seq::empty()
    } else {
        selections(batch, (n - 1) as nat) + work_query_text((n - 1) as nat, batch[n - 1])
    }
}

/// The whole query document for a batch.
pub open spec fn batch_query_text(batch: Seq<WorkView>) -> Seq<char> {
    DOC_OPEN@ + selections(batch, batch.len()) + DOC_CLOSE@
}

/// The selection that lists one page of an owner's repositories.
pub fn query_owner(i: usize, login: &str, cursor: &Cursor) -> (r: String)
    ensures
        r@ == owner_query_text(i as nat, login@, cursor.view_opt()),
{
    let mut s = String::from_str(OWNER_ALIAS);
    s.append(decimal_string(i).as_str());
    s.append(OWNER_LOGIN);
    s.append(login);
    s.append(OWNER_AFTER);
    s.append(cursor.to_string().as_str());
    s.append(OWNER_TAIL);
    s
}

/// The selection that lists one page of a repository's stargazers.
pub fn query_repo(i: usize, owner: &str, repo: &str, cursor: &Cursor) -> (r: String)
    ensures
        r@ == repo_query_text(i as nat, owner@, repo@, cursor.view_opt()),
{
    let mut s = String::from_str(REPO_ALIAS);
    s.append(decimal_string(i).as_str());
    s.append(REPO_OWNER);
    s.append(owner);
    s.append(REPO_NAME);
    s.append(repo);
    s.append(REPO_AFTER);
    s.append(cursor.to_string().as_str());
    s.append(REPO_TAIL);
    s
}

/// One query document holding a selection for every work item, slot `i`
/// aliased with `i`, in batch order.
pub fn build_query(batch: &Vec<Work>) -> (r: String)
    ensures
        r@ == batch_query_text(batch@.map_values(|w: Work| w@)),
{
    let ghost views = batch@.map_values(|w: Work| w@);
    let mut s = String::from_str(DOC_OPEN);
    let mut i: usize = 0;
    while i < batch.len()
        invariant
            i <= batch.len(),
            views == batch@.map_values(|w: Work| w@),
            s@ == DOC_OPEN@ + selections(views, i as nat),
        decreases batch.len() - i,
    {
        let w = &batch[i];
        let part = match &w.series {
            Series::Owner(o) => query_owner(i, o.as_str(), &w.cursor),
            Series::Repo(o, r) => query_repo(i, o.as_str(), r.as_str(), &w.cursor),
        };
        assert(part@ == work_query_text(i as nat, views[i as int]));
        s.append(part.as_str());
        assert(s@ =~= DOC_OPEN@ + selections(views, (i + 1) as nat));
        i = i + 1;
    }
    s.append(DOC_CLOSE);
    s
}

} // verus!

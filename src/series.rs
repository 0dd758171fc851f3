//! What is charted: an owner, or one repository of an owner; and the cursor
//! that resumes a paginated list.
use crate::text::{compare_text, text_cmp};
use core::cmp::Ordering;
use vstd::prelude::*;
use vstd::string::*;

verus! {

/// An owner (user or organization), or an owner's repository.
#[derive(Debug)]
pub enum Series {
    Owner(String),
    Repo(String, String),
}

/// The mathematical value of a `Series`.
pub enum SeriesView {
    Owner(Seq<char>),
    Repo(Seq<char>, Seq<char>),
}

/// What `str::to_lowercase` gives for a text.
pub uninterp spec fn lower_of(s: Seq<char>) -> Seq<char>;

/// Relies on `str::to_lowercase`, whose result depends on the characters alone.
#[verifier::external_body]
fn lowercase(s: &str) -> (r: String)
    ensures
        r@ == lower_of(s@),
{
    s.to_lowercase()
}

impl View for Series {
    type V = SeriesView;

    open spec fn view(&self) -> SeriesView {
        match self {
            Series::Owner(o) => SeriesView::Owner(o@),
            Series::Repo(o, r) => SeriesView::Repo(o@, r@),
        }
    }
}

/// The identity of a series: its names with case folded away.
pub open spec fn series_key(s: SeriesView) -> SeriesView {
    match s {
        SeriesView::Owner(o) => SeriesView::Owner(lower_of(o)),
        SeriesView::Repo(o, r) => SeriesView::Repo(lower_of(o), lower_of(r)),
    }
}

/// Order of series identities: owners first, then by owner name, then by repository name.
pub open spec fn key_cmp(a: SeriesView, b: SeriesView) -> Ordering {
    match (a, b) {
        (SeriesView::Owner(x), SeriesView::Owner(y)) => text_cmp(x, y),
        (SeriesView::Repo(x1, x2), SeriesView::Repo(y1, y2)) => {
            if text_cmp(x1, y1) != Ordering::Equal {
                text_cmp(x1, y1)
            } else {
                text_cmp(x2, y2)
            }
        },
        (SeriesView::Owner(_), SeriesView::Repo(_, _)) => Ordering::Less,
        (SeriesView::Repo(_, _), SeriesView::Owner(_)) => Ordering::Greater,
    }
}

/// How a series is written: `owner` or `owner/repo`.
pub open spec fn series_text(s: SeriesView) -> Seq<char> {
    match s {
        SeriesView::Owner(o) => o,
        SeriesView::Repo(o, r) => o + seq!['/'] + r,
    }
}

/// The first position of `c` in `s`, if any.
pub open spec fn first_index_of(s: Seq<char>, c: char) -> Option<int> {
    if exists|i: int| 0 <= i < s.len() && s[i] == c {
        Some(choose|i: int| 0 <= i < s.len() && s[i] == c && forall|j: int| 0 <= j < i ==> s[j] != c)
    } else {
        None
    }
}

/// The series named by a command-line word: `owner/repo` splits at the first
/// slash; otherwise the word is an owner, with one leading `@` dropped.
pub open spec fn parse_series(a: Seq<char>) -> SeriesView {
    match first_index_of(a, '/') {
        Some(p) => SeriesView::Repo(a.take(p), a.skip(p + 1)),
        None => if a.len() > 0 && a[0] == '@' {
            SeriesView::Owner(a.drop_first())
        } else {
            SeriesView::Owner(a)
        },
    }
}

impl Series {
    pub open spec fn key(&self) -> SeriesView {
        series_key(self@)
    }

    /// The series named by a command-line word.
    pub fn from_arg(arg: &str) -> (r: Series)
        ensures
            r@ == parse_series(arg@),
    {
        let n = arg.unicode_len();
        let mut i: usize = 0;
        while i < n && arg.get_char(i) != '/'
            invariant
                n == arg@.len(),
                i <= n,
                forall|j: int| 0 <= j < i ==> arg@[j] != '/',
            decreases n - i,
        {
            i = i + 1;
        }
        if i < n {
            proof {
                assert(arg@[i as int] == '/');
                let p = first_index_of(arg@, '/');
                assert(p.is_some());
                let q = p.unwrap();
                assert(q == i);
            }
            let owner = String::from_str(arg.substring_char(0, i));
            let repo = String::from_str(arg.substring_char(i + 1, n));
            Series::Repo(owner, repo)
        } else {
            proof {
                assert(!(exists|j: int| 0 <= j < arg@.len() && arg@[j] == '/'));
            }
            if n > 0 && arg.get_char(0) == '@' {
                Series::Owner(String::from_str(arg.substring_char(1, n)))
            } else {
                Series::Owner(String::from_str(arg))
            }
        }
    }

    /// A copy of the series.
    pub fn duplicate(&self) -> (r: Series)
        ensures
            r@ == self@,
    {
        match self {
            Series::Owner(o) => Series::Owner(o.clone()),
            Series::Repo(o, r) => Series::Repo(o.clone(), r.clone()),
        }
    }

    /// How the series is written: `owner` or `owner/repo`.
    pub fn to_string(&self) -> (r: String)
        ensures
            r@ == series_text(self@),
    {
        match self {
            Series::Owner(o) => o.clone(),
            Series::Repo(o, r) => {
                proof {
                    reveal_strlit("/");
                }
                let mut s = o.clone();
                s.append("/");
                s.append(r.as_str());
                s
            },
        }
    }

    /// Orders series without regard to case: owners before repositories,
    /// repositories by owner and then by name.
    pub fn cmp(&self, other: &Series) -> (r: Ordering)
        ensures
            r == key_cmp(self.key(), other.key()),
    {
        match (self, other) {
            (Series::Owner(x), Series::Owner(y)) => {
                compare_text(lowercase(x).as_str(), lowercase(y).as_str())
            },
            (Series::Repo(x1, x2), Series::Repo(y1, y2)) => {
                let c = compare_text(lowercase(x1).as_str(), lowercase(y1).as_str());
                match c {
                    Ordering::Equal => compare_text(lowercase(x2).as_str(), lowercase(y2).as_str()),
                    _ => c,
                }
            },
            (Series::Owner(_), Series::Repo(_, _)) => Ordering::Less,
            (Series::Repo(_, _), Series::Owner(_)) => Ordering::Greater,
        }
    }

    /// Whether two series have the same identity, case aside.
    pub fn same(&self, other: &Series) -> (r: bool)
        ensures
            r == (self.key() == other.key()),
    {
        match (self, other) {
            (Series::Owner(x), Series::Owner(y)) => lowercase(x) == lowercase(y),
            (Series::Repo(x1, x2), Series::Repo(y1, y2)) => {
                lowercase(x1) == lowercase(y1) && lowercase(x2) == lowercase(y2)
            },
            _ => false,
        }
    }
}

impl PartialEq for Series {
    fn eq(&self, other: &Series) -> (r: bool) {
        self.same(other)
    }
}

impl vstd::std_specs::cmp::PartialEqSpecImpl for Series {
    open spec fn obeys_eq_spec() -> bool {
        true
    }

    open spec fn eq_spec(&self, other: &Series) -> bool {
        self.key() == other.key()
    }
}

impl Eq for Series {

}

impl PartialOrd for Series {
    fn partial_cmp(&self, other: &Series) -> (r: Option<Ordering>) {
        Some(self.cmp(other))
    }
}

impl vstd::std_specs::cmp::PartialOrdSpecImpl for Series {
    open spec fn obeys_partial_cmp_spec() -> bool {
        true
    }

    open spec fn partial_cmp_spec(&self, other: &Series) -> Option<Ordering> {
        Some(key_cmp(self.key(), other.key()))
    }
}

/// A position in a paginated list; `None` is the start of the list.
#[derive(Debug)]
pub struct Cursor(pub Option<String>);

/// How a cursor is written in a query: a quoted string, or `null`.
pub open spec fn cursor_text(c: Option<Seq<char>>) -> Seq<char> {
    match c {
        Some(s) => seq!['"'] + s + seq!['"'],
        None => seq!['n', 'u', 'l', 'l'],
    }
}

impl Cursor {
    pub open spec fn view_opt(&self) -> Option<Seq<char>> {
        match self.0 {
            Some(s) => Some(s@),
            None => None,
        }
    }

    /// A copy of the cursor.
    pub fn duplicate(&self) -> (r: Cursor)
        ensures
            r.view_opt() == self.view_opt(),
    {
        match &self.0 {
            Some(c) => Cursor(Some(c.clone())),
            None => Cursor(None),
        }
    }

    /// The cursor as a literal of the query language.
    pub fn to_string(&self) -> (r: String)
        ensures
            r@ == cursor_text(self.view_opt()),
    {
        proof {
            reveal_strlit("\"");
            reveal_strlit("null");
        }
        match &self.0 {
            Some(c) => {
                let mut s = String::from_str("\"");
                s.append(c.as_str());
                s.append("\"");
                s
            },
            None => {
                let s = String::from_str("null");
                assert(s@ =~= seq!['n', 'u', 'l', 'l']);
                s
            },
        }
    }
}

} // verus!

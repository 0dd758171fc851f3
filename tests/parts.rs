use star_history::decode::{decode_response, decode_star, Data};
use star_history::json::Json;
use star_history::log::Log;
use star_history::query::{query_owner, query_repo};
use star_history::series::{Cursor, Series};
use star_history::stars::{Star, StarSet};
use star_history::text::{compare_text, decimal_string};
use std::cmp::Ordering;

fn text(s: &str) -> Json {
    Json::Str(s.to_string())
}

fn object(members: Vec<(&str, Json)>) -> Json {
    Json::Object(members.into_iter().map(|(k, v)| (k.to_string(), v)).collect())
}

fn star(time: i64, login: &str) -> Star {
    Star { time, login: login.to_string() }
}

#[test]
fn owner_query_text() {
    let q = query_owner(3, "dtolnay", &Cursor(None));
    let expected = "\n        owner3: repositoryOwner(login: \"dtolnay\") {\n          login\n          repositories(after: null, first: 100, isFork: false, privacy: PUBLIC, ownerAffiliations: [OWNER]) {\n            pageInfo {\n              hasNextPage\n              endCursor\n            }\n            nodes {\n              name\n              owner {\n                login\n              }\n            }\n          }\n        }\n    ";
    assert_eq!(q, expected);
}

#[test]
fn repo_query_text() {
    let q = query_repo(12, "serde-rs", "serde", &Cursor(Some("abc".to_string())));
    let expected = "\n        repo12: repository(owner: \"serde-rs\", name: \"serde\") {\n          name\n          owner {\n            login\n          }\n          stargazers(after: \"abc\", first: 100) {\n            pageInfo {\n              hasNextPage\n              endCursor\n            }\n            edges {\n              node {\n                login\n              }\n              starredAt\n            }\n          }\n        }\n    ";
    assert_eq!(q, expected);
}

#[test]
fn cursor_literals() {
    assert_eq!(Cursor(None).to_string(), "null");
    assert_eq!(Cursor(Some("Y3Vy".to_string())).to_string(), "\"Y3Vy\"");
}

#[test]
fn decimal_rendering() {
    assert_eq!(decimal_string(0), "0");
    assert_eq!(decimal_string(7), "7");
    assert_eq!(decimal_string(1234), "1234");
    assert_eq!(decimal_string(usize::MAX), usize::MAX.to_string());
}

#[test]
fn text_order() {
    assert_eq!(compare_text("abc", "abd"), Ordering::Less);
    assert_eq!(compare_text("ab", "abc"), Ordering::Less);
    assert_eq!(compare_text("b", "abc"), Ordering::Greater);
    assert_eq!(compare_text("same", "same"), Ordering::Equal);
    assert_eq!(compare_text("", ""), Ordering::Equal);
}

#[test]
fn series_from_words() {
    assert_eq!(Series::from_arg("dtolnay/syn").to_string(), "dtolnay/syn");
    assert!(matches!(Series::from_arg("dtolnay/syn"), Series::Repo(..)));
    assert!(matches!(Series::from_arg("@dtolnay"), Series::Owner(ref o) if o == "dtolnay"));
    assert!(matches!(Series::from_arg("a/b/c"), Series::Repo(ref o, ref r) if o == "a" && r == "b/c"));
    assert!(matches!(Series::from_arg("@a/b"), Series::Repo(ref o, _) if o == "@a"));
}

#[test]
fn series_identity_ignores_case() {
    let a = Series::Owner("DTolnay".to_string());
    let b = Series::Owner("dtolnay".to_string());
    assert!(a.same(&b));
    assert!(a == b);
    assert_eq!(a.cmp(&b), Ordering::Equal);
    let r = Series::Repo("Serde-RS".to_string(), "Serde".to_string());
    let s = Series::Repo("serde-rs".to_string(), "serde".to_string());
    assert!(r == s);
    assert!(a != r);
}

#[test]
fn series_order() {
    let owner = Series::Owner("zzz".to_string());
    let repo = Series::Repo("aaa".to_string(), "a".to_string());
    assert_eq!(owner.cmp(&repo), Ordering::Less);
    assert_eq!(repo.cmp(&owner), Ordering::Greater);
    let x = Series::Repo("B".to_string(), "x".to_string());
    let y = Series::Repo("a".to_string(), "y".to_string());
    assert_eq!(x.cmp(&y), Ordering::Greater);
    let p = Series::Repo("a".to_string(), "B".to_string());
    let q = Series::Repo("A".to_string(), "c".to_string());
    assert_eq!(p.cmp(&q), Ordering::Less);
}

#[test]
fn star_set_keeps_order_and_uniqueness() {
    let mut set = StarSet::new();
    set.insert(star(5, "b"));
    set.insert(star(3, "z"));
    set.insert(star(5, "a"));
    set.insert(star(5, "b"));
    assert_eq!(set.len(), 3);
    assert_eq!(set.get(0).time, 3);
    assert_eq!(set.get(1).login, "a");
    assert_eq!(set.get(2).login, "b");
}

#[test]
fn finished_points() {
    let mut set = StarSet::new();
    set.insert(star(100, "a"));
    set.insert(star(200, "b"));
    assert_eq!(set.finish(300), vec![(99, 0), (100, 1), (200, 2), (300, 2)]);
}

#[test]
fn no_point_at_now_after_a_later_star() {
    let mut set = StarSet::new();
    set.insert(star(100, "a"));
    set.insert(star(300, "b"));
    assert_eq!(set.finish(300), vec![(99, 0), (100, 1), (300, 2)]);
}

#[test]
fn empty_set_gets_one_point_at_now() {
    let mut set = StarSet::new();
    assert_eq!(set.finish(42), vec![(42, 0)]);
}

#[test]
fn first_star_at_earliest_time_gets_no_lead_in() {
    let mut set = StarSet::new();
    set.insert(star(i64::MIN, "a"));
    assert_eq!(set.finish(0), vec![(i64::MIN, 0), (0, 0)]);
}

#[test]
fn star_time_is_read_by_chrono() {
    let j = object(vec![
        ("node", object(vec![("login", text("octocat"))])),
        ("starredAt", text("2011-01-26T19:01:12Z")),
    ]);
    let s = decode_star(&j).unwrap();
    assert_eq!(s.time, 1296068472);
    assert_eq!(s.login, "octocat");
    let bad = object(vec![
        ("node", object(vec![("login", text("octocat"))])),
        ("starredAt", text("yesterday")),
    ]);
    assert!(decode_star(&bad).is_none());
}

#[test]
fn decoder_skips_unknown_keys_and_null_edges() {
    let edges = Json::Array(vec![
        Json::Null,
        object(vec![
            ("node", object(vec![("login", text("a"))])),
            ("starredAt", text("2020-01-01T00:00:00Z")),
        ]),
    ]);
    let repo = object(vec![
        ("name", text("syn")),
        ("owner", object(vec![("login", text("dtolnay"))])),
        (
            "stargazers",
            object(vec![
                (
                    "pageInfo",
                    object(vec![("hasNextPage", Json::Bool(false)), ("endCursor", Json::Null)]),
                ),
                ("edges", edges),
            ]),
        ),
    ]);
    let j = object(vec![(
        "data",
        object(vec![
            ("rateLimit", object(vec![("cost", Json::Number("1".to_string()))])),
            ("repo0", repo),
            ("owner1", Json::Null),
        ]),
    )]);
    let r = decode_response(&j).unwrap();
    assert!(r.message.is_none());
    assert_eq!(r.data.len(), 2);
    match &r.data[0] {
        Data::Repo(Some(repo)) => {
            let sg = repo.stargazers.as_ref().unwrap();
            assert_eq!(sg.edges.len(), 1);
            assert_eq!(sg.edges[0].login, "a");
            assert!(!sg.page_info.has_next_page);
        }
        other => panic!("unexpected {:?}", other),
    }
    assert!(matches!(r.data[1], Data::Owner(None)));
}

#[test]
fn decoder_rejects_wrong_shapes() {
    assert!(decode_response(&Json::Array(vec![])).is_none());
    let j = object(vec![("data", text("nope"))]);
    assert!(decode_response(&j).is_none());
    let j = object(vec![("data", object(vec![("owner0", object(vec![("login", text("x"))]))]))]);
    assert!(decode_response(&j).is_none());
    let j = object(vec![("errors", Json::Null)]);
    assert!(decode_response(&j).is_none());
}

#[test]
fn decoder_accepts_empty_and_null_data() {
    let r = decode_response(&object(vec![])).unwrap();
    assert!(r.data.is_empty() && r.errors.is_empty() && r.message.is_none());
    let r = decode_response(&object(vec![("data", Json::Null), ("message", text("m"))])).unwrap();
    assert!(r.data.is_empty());
    assert_eq!(r.message.as_deref(), Some("m"));
}

#[test]
fn log_marks_and_lines() {
    let mut log = Log::new();
    assert_eq!(log.end(), "");
    assert_eq!(log.tick(), ".");
    assert_eq!(log.note("page"), "[page]");
    assert_eq!(log.end(), "\n");
    assert_eq!(log.write_fmt("hello\n"), "\nhello\n");
    assert_eq!(log.write_fmt("again\n"), "again\n");
    assert_eq!(log.end(), "");
}

use star_history::decode::{decode_response, Response};
use star_history::engine::{Failure, History, BATCH_LIMIT};
use star_history::json::Json;
use star_history::query::{build_query, Work};
use star_history::series::{Cursor, Series};

const T1: &str = "2020-01-01T00:00:00Z";
const T1_SECS: i64 = 1577836800;
const T2: &str = "2020-01-02T00:00:00Z";
const T2_SECS: i64 = 1577923200;
const NOW: i64 = 1700000000;

fn text(s: &str) -> Json {
    Json::Str(s.to_string())
}

fn object(members: Vec<(&str, Json)>) -> Json {
    Json::Object(members.into_iter().map(|(k, v)| (k.to_string(), v)).collect())
}

fn page_info(has_next: bool, cursor: Option<&str>) -> Json {
    object(vec![
        ("hasNextPage", Json::Bool(has_next)),
        ("endCursor", cursor.map(text).unwrap_or(Json::Null)),
    ])
}

fn account(login: &str) -> Json {
    object(vec![("login", text(login))])
}

fn edge(login: &str, at: &str) -> Json {
    object(vec![("node", account(login)), ("starredAt", text(at))])
}

fn repo_with_stars(owner: &str, name: &str, edges: Vec<Json>, next: Option<&str>) -> Json {
    object(vec![
        ("name", text(name)),
        ("owner", account(owner)),
        (
            "stargazers",
            object(vec![
                ("pageInfo", page_info(next.is_some(), next)),
                ("edges", Json::Array(edges)),
            ]),
        ),
    ])
}

fn listed_repo(owner: &str, name: &str) -> Json {
    object(vec![("name", text(name)), ("owner", account(owner))])
}

fn owner_node(login: &str, repos: Vec<Json>, next: Option<&str>) -> Json {
    object(vec![
        ("login", text(login)),
        (
            "repositories",
            object(vec![
                ("pageInfo", page_info(next.is_some(), next)),
                ("nodes", Json::Array(repos)),
            ]),
        ),
    ])
}

fn response(data: Vec<(&str, Json)>) -> Response {
    decode_response(&object(vec![("data", object(data))])).expect("response decodes")
}

fn owner(s: &str) -> Series {
    Series::Owner(s.to_string())
}

fn repo(o: &str, r: &str) -> Series {
    Series::Repo(o.to_string(), r.to_string())
}

fn batch_series(batch: &[Work]) -> Vec<String> {
    batch.iter().map(|w| w.series.to_string()).collect()
}

#[test]
fn batches_hold_at_most_fifty_items() {
    let requested: Vec<Series> = (0..120).map(|i| owner(&format!("user{}", i))).collect();
    let mut history = History::new(requested);
    let mut sizes = Vec::new();
    while history.pending() {
        let batch = history.next_batch();
        assert!(batch.len() <= BATCH_LIMIT);
        sizes.push(batch.len());
    }
    assert_eq!(sizes, vec![50, 50, 20]);
}

#[test]
fn first_batch_starts_every_list_at_the_beginning() {
    let mut history = History::new(vec![owner("dtolnay"), repo("serde-rs", "serde")]);
    let batch = history.next_batch();
    assert_eq!(batch_series(&batch), vec!["dtolnay", "serde-rs/serde"]);
    assert!(batch.iter().all(|w| w.cursor.0.is_none()));
    let query = build_query(&batch);
    assert!(query.starts_with("{\n"));
    assert!(query.ends_with("}\n"));
    assert!(query.contains("owner0: repositoryOwner(login: \"dtolnay\")"));
    assert!(query.contains("repo1: repository(owner: \"serde-rs\", name: \"serde\")"));
    assert!(!history.pending());
}

#[test]
fn scheduler_ends_when_every_page_is_the_last() {
    let mut history = History::new(vec![repo("octocat", "Hello-World")]);
    let cursors = ["c3", "c2", "c1"];
    let mut rounds = 0;
    while history.pending() {
        let batch = history.next_batch();
        assert_eq!(batch.len(), 1);
        let next = cursors.get(rounds).copied();
        let login = format!("fan{}", rounds);
        let edges = vec![edge(&login, T1)];
        let r = response(vec![("repo0", repo_with_stars("octocat", "Hello-World", edges, next))]);
        history.absorb(&batch, r).expect("round succeeds");
        rounds += 1;
        assert!(rounds < 10, "scheduler does not stop");
    }
    assert_eq!(rounds, 4);
    let out = history.finish(NOW);
    let counts: Vec<usize> = out[0].1.iter().map(|p| p.1).collect();
    assert_eq!(counts, vec![0, 1, 2, 3, 4, 4]);
}

#[test]
fn continuation_resumes_at_the_returned_cursor() {
    let mut history = History::new(vec![repo("octocat", "Hello-World")]);
    let batch = history.next_batch();
    let r = response(vec![(
        "repo0",
        repo_with_stars("octocat", "Hello-World", vec![edge("a", T1)], Some("Y3Vyc29y")),
    )]);
    history.absorb(&batch, r).unwrap();
    let batch = history.next_batch();
    assert_eq!(batch.len(), 1);
    assert_eq!(batch[0].cursor.0.as_deref(), Some("Y3Vyc29y"));
    assert!(build_query(&batch).contains("stargazers(after: \"Y3Vyc29y\", first: 100)"));
}

#[test]
fn owner_listing_schedules_each_repository() {
    let mut history = History::new(vec![owner("dtolnay")]);
    let batch = history.next_batch();
    let r = response(vec![(
        "owner0",
        owner_node(
            "dtolnay",
            vec![listed_repo("dtolnay", "syn"), listed_repo("dtolnay", "quote")],
            Some("more"),
        ),
    )]);
    history.absorb(&batch, r).unwrap();
    let batch = history.next_batch();
    assert_eq!(batch_series(&batch), vec!["dtolnay", "dtolnay/syn", "dtolnay/quote"]);
    assert_eq!(batch[0].cursor.0.as_deref(), Some("more"));
    assert!(batch[1].cursor.0.is_none());
    assert!(batch[2].cursor.0.is_none());
}

#[test]
fn owner_series_collects_stars_of_its_repositories() {
    let mut history = History::new(vec![owner("dtolnay"), repo("dtolnay", "syn")]);
    let batch = history.next_batch();
    let r = response(vec![
        ("owner0", owner_node("dtolnay", vec![], None)),
        ("repo1", repo_with_stars("dtolnay", "syn", vec![edge("a", T1), edge("b", T2)], None)),
    ]);
    history.absorb(&batch, r).unwrap();
    assert!(!history.pending());
    let out = history.finish(NOW);
    let expected = vec![(T1_SECS - 1, 0), (T1_SECS, 1), (T2_SECS, 2), (NOW, 2)];
    assert_eq!(out[0].1, expected);
    assert_eq!(out[1].1, expected);
}

#[test]
fn missing_owner_is_reported_by_its_request() {
    let mut history = History::new(vec![owner("octocat"), repo("octocat", "Hello-World")]);
    let batch = history.next_batch();
    let r = response(vec![
        ("owner0", Json::Null),
        ("repo1", repo_with_stars("octocat", "Hello-World", vec![], None)),
    ]);
    match history.absorb(&batch, r) {
        Err(Failure::NoSuchUser(o)) => assert_eq!(o, "octocat"),
        other => panic!("unexpected {:?}", other),
    }
    assert!(!history.pending());
}

#[test]
fn missing_repository_is_reported_by_its_request() {
    let mut history = History::new(vec![owner("octocat"), repo("octocat", "Nope")]);
    let batch = history.next_batch();
    let r = response(vec![
        ("owner0", owner_node("octocat", vec![], None)),
        ("repo1", Json::Null),
    ]);
    match history.absorb(&batch, r) {
        Err(f) => {
            assert_eq!(f.describe(), "no such repository: octocat/Nope");
            assert!(matches!(f, Failure::NoSuchRepo(..)));
        }
        Ok(_) => panic!("missing repository accepted"),
    }
}

#[test]
fn missing_entity_beyond_the_batch_is_a_decode_failure() {
    let mut history = History::new(vec![owner("octocat")]);
    let batch = history.next_batch();
    let r = response(vec![("owner0", owner_node("octocat", vec![], None)), ("owner1", Json::Null)]);
    assert!(matches!(history.absorb(&batch, r), Err(Failure::Decode)));
}

#[test]
fn owner_without_repositories_has_no_real_stars() {
    let mut history = History::new(vec![owner("octocat"), repo("octocat", "Hello-World")]);
    let batch = history.next_batch();
    let r = response(vec![
        ("owner0", owner_node("octocat", vec![], None)),
        ("repo1", repo_with_stars("octocat", "Hello-World", vec![], None)),
    ]);
    let errors = history.absorb(&batch, r).unwrap();
    assert!(errors.is_empty());
    assert!(!history.pending());
    let out = history.finish(NOW);
    assert_eq!(out.len(), 2);
    assert_eq!(out[0].0.to_string(), "octocat");
    assert_eq!(out[0].1, vec![(NOW, 0)]);
    assert_eq!(out[1].0.to_string(), "octocat/Hello-World");
    assert_eq!(out[1].1, vec![(NOW, 0)]);
}

#[test]
fn same_instant_by_two_accounts_counts_twice() {
    let mut history = History::new(vec![repo("octocat", "Hello-World")]);
    let batch = history.next_batch();
    let edges = vec![edge("a", T1), edge("b", T2), edge("c", T2), edge("b", T2)];
    let r = response(vec![("repo0", repo_with_stars("octocat", "Hello-World", edges, None))]);
    history.absorb(&batch, r).unwrap();
    let out = history.finish(NOW);
    assert_eq!(
        out[0].1,
        vec![(T1_SECS - 1, 0), (T1_SECS, 1), (T2_SECS, 2), (T2_SECS, 3), (NOW, 3)]
    );
}

#[test]
fn edge_repeated_on_a_later_page_counts_once() {
    let mut history = History::new(vec![repo("octocat", "Hello-World")]);
    let batch = history.next_batch();
    let r = response(vec![(
        "repo0",
        repo_with_stars("octocat", "Hello-World", vec![edge("a", T1), edge("b", T2)], Some("p2")),
    )]);
    history.absorb(&batch, r).unwrap();
    let batch = history.next_batch();
    let r = response(vec![(
        "repo0",
        repo_with_stars("octocat", "Hello-World", vec![edge("b", T2), edge("c", T2)], None),
    )]);
    history.absorb(&batch, r).unwrap();
    let out = history.finish(NOW);
    assert_eq!(
        out[0].1,
        vec![(T1_SECS - 1, 0), (T1_SECS, 1), (T2_SECS, 2), (T2_SECS, 3), (NOW, 3)]
    );
}

#[test]
fn top_level_message_aborts_the_run() {
    let mut history = History::new((0..60).map(|i| owner(&format!("u{}", i))).collect());
    let batch = history.next_batch();
    assert!(history.pending());
    let j = object(vec![
        ("message", text("Bad credentials")),
        ("data", object(vec![("owner0", owner_node("u0", vec![], None))])),
    ]);
    let r = decode_response(&j).unwrap();
    match history.absorb(&batch, r) {
        Err(f) => assert_eq!(f.describe(), "Error from GitHub api: Bad credentials"),
        Ok(_) => panic!("message did not abort"),
    }
    assert!(!history.pending());
}

#[test]
fn partial_errors_are_handed_back() {
    let mut history = History::new(vec![owner("octocat")]);
    let batch = history.next_batch();
    let j = object(vec![
        ("data", object(vec![("owner0", owner_node("octocat", vec![], None))])),
        ("errors", Json::Array(vec![object(vec![("message", text("rate limited soon"))])])),
    ]);
    let r = decode_response(&j).unwrap();
    let errors = history.absorb(&batch, r).unwrap();
    assert_eq!(errors, vec!["rate limited soon".to_string()]);
}

#[test]
fn requests_differing_in_case_share_a_series() {
    let mut history = History::new(vec![owner("DTolnay"), owner("dtolnay")]);
    let batch = history.next_batch();
    assert_eq!(batch.len(), 2);
    let r = response(vec![
        ("owner0", owner_node("dtolnay", vec![], None)),
        ("owner1", owner_node("dtolnay", vec![], None)),
    ]);
    history.absorb(&batch, r).unwrap();
    let out = history.finish(NOW);
    assert_eq!(out.len(), 2);
    assert_eq!(out[0].1, out[1].1);
}

#[test]
fn failure_texts() {
    assert_eq!(Failure::NoSuchUser("x".to_string()).describe(), "no such user: x");
    assert_eq!(Failure::Decode.describe(), "failed to decode response body");
}

#[test]
fn cursor_type_is_plain() {
    let w = Work { series: owner("a"), cursor: Cursor(None) };
    assert_eq!(w.series.to_string(), "a");
}

#[test]
fn edge_delivered_twice_changes_no_point() {
    let run = |pages: Vec<Vec<Json>>| {
        let mut history = History::new(vec![owner("octocat"), repo("octocat", "Hello-World")]);
        let batch = history.next_batch();
        let r = response(vec![
            ("owner0", owner_node("octocat", vec![], None)),
            ("repo1", repo_with_stars("octocat", "Hello-World", pages[0].iter().map(copy_json).collect(), Some("p2"))),
        ]);
        history.absorb(&batch, r).unwrap();
        let batch = history.next_batch();
        let r = response(vec![(
            "repo0",
            repo_with_stars("octocat", "Hello-World", pages[1].iter().map(copy_json).collect(), None),
        )]);
        history.absorb(&batch, r).unwrap();
        history.finish(NOW)
    };
    let once = run(vec![vec![edge("a", T1), edge("b", T2)], vec![edge("c", T2)]]);
    let twice = run(vec![vec![edge("a", T1), edge("b", T2)], vec![edge("b", T2), edge("c", T2)]]);
    assert_eq!(once.len(), 2);
    assert_eq!(once[0].1, twice[0].1);
    assert_eq!(once[1].1, twice[1].1);
    assert_eq!(
        once[1].1,
        vec![(T1_SECS - 1, 0), (T1_SECS, 1), (T2_SECS, 2), (T2_SECS, 3), (NOW, 3)]
    );
}

fn copy_json(j: &Json) -> Json {
    match j {
        Json::Null => Json::Null,
        Json::Bool(b) => Json::Bool(*b),
        Json::Number(n) => Json::Number(n.clone()),
        Json::Str(s) => Json::Str(s.clone()),
        Json::Array(items) => Json::Array(items.iter().map(copy_json).collect()),
        Json::Object(members) => {
            Json::Object(members.iter().map(|(k, v)| (k.clone(), copy_json(v))).collect())
        }
    }
}

#[test]
fn partial_errors_do_not_stop_the_rounds() {
    let mut history = History::new(vec![repo("octocat", "Hello-World")]);
    let cursors = ["c2", "c1"];
    let mut rounds = 0;
    let mut reported = Vec::new();
    while history.pending() {
        let batch = history.next_batch();
        let next = cursors.get(rounds).copied();
        let login = format!("fan{}", rounds);
        let j = object(vec![
            (
                "data",
                object(vec![(
                    "repo0",
                    repo_with_stars("octocat", "Hello-World", vec![edge(&login, T2)], next),
                )]),
            ),
            (
                "errors",
                Json::Array(vec![object(vec![("message", text(&format!("warning {}", rounds)))])]),
            ),
        ]);
        let errors = history.absorb(&batch, decode_response(&j).unwrap()).unwrap();
        reported.extend(errors);
        rounds += 1;
        assert!(rounds < 10, "scheduler does not stop");
    }
    assert_eq!(rounds, 3);
    assert_eq!(reported, vec!["warning 0", "warning 1", "warning 2"]);
    let out = history.finish(NOW);
    let counts: Vec<usize> = out[0].1.iter().map(|p| p.1).collect();
    assert_eq!(counts, vec![0, 1, 2, 3, 3]);
}

#[test]
fn owner_without_repositories_while_its_repository_pages_on() {
    let mut history = History::new(vec![owner("octocat"), repo("octocat", "Hello-World")]);
    let batch = history.next_batch();
    let r = response(vec![
        ("owner0", owner_node("octocat", vec![], None)),
        ("repo1", repo_with_stars("octocat", "Hello-World", vec![], Some("p2"))),
    ]);
    history.absorb(&batch, r).unwrap();
    let batch = history.next_batch();
    assert_eq!(batch_series(&batch), vec!["octocat/Hello-World"]);
    let r = response(vec![("repo0", repo_with_stars("octocat", "Hello-World", vec![], None))]);
    history.absorb(&batch, r).unwrap();
    assert!(!history.pending());
    let out = history.finish(NOW);
    assert_eq!(out[0].1, vec![(NOW, 0)]);
    assert_eq!(out[1].1, vec![(NOW, 0)]);
}

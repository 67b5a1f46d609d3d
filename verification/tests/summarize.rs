use diffr::summarize::{
    compresses, documentation, language_prompt, max_output_tokens, next_step, prompt, quoted, requests, select, strip_markers,
    summaries, summary_moves, url, Answer, AnswerError, Next, Options, Provider, Reply, Request, Summary,
};
use diffr::tree::{Node, Pairing, Region, Source};
use diffr::types::{Move, Position, Range, Visibility};

fn leaf(id: u32, alignment: u32, start: u32, end: u32) -> Region {
    Region {
        id,
        fold_state_id: id,
        range: Range { start: Position { line: start, column: 0 }, end: Position { line: end, column: 0 } },
        tags: vec![],
        visibility: Visibility::default(),
        node: Node::Leaf { alignment_id: alignment, changed: vec![] },
    }
}

fn fold(id: u32, tags: &[&str], children: Vec<Region>) -> Region {
    Region {
        id,
        fold_state_id: id,
        range: Range { start: children[0].range.start, end: children[children.len() - 1].range.end },
        tags: tags.iter().map(|tag| tag.to_string()).collect(),
        visibility: Visibility::default(),
        node: Node::Fold { children },
    }
}

fn chars(s: &str) -> Vec<char> {
    s.chars().collect()
}

fn text(c: Vec<char>) -> String {
    c.into_iter().collect()
}

const SOURCE: &str = "/// Adds two numbers.\nfn add() {\n    a\n    b\n}\n";

/// A docstring fold over line 0 and a function body over lines 1 to 4.
fn after_side() -> Source {
    Source {
        text: SOURCE.to_owned(),
        regions: vec![
            fold(1, &["summarize:docstring"], vec![leaf(2, 10, 0, 1)]),
            fold(3, &["summarize:function"], vec![leaf(4, 11, 1, 5)]),
        ],
    }
}

#[test]
fn markers_and_quotes_are_stripped_from_docstring_lines() {
    assert_eq!(text(strip_markers(&chars("   /// Hello world  "))), "Hello world");
    assert_eq!(text(strip_markers(&chars("# comment"))), "comment");
    assert_eq!(text(strip_markers(&chars("\"\"\"Doc string\"\"\""))), "Doc string");
    assert_eq!(text(strip_markers(&chars("'''  quoted '''"))), "quoted");
    assert_eq!(text(strip_markers(&chars("/** x */"))), "x");
    assert_eq!(text(strip_markers(&chars("*/"))), "");
    assert_eq!(text(strip_markers(&chars("plain text"))), "plain text");
    assert_eq!(text(strip_markers(&chars(";; lisp"))), "lisp");
}

#[test]
fn a_quote_is_kept_only_when_verbatim_from_the_docstring() {
    let doc = Some("Adds  two\n numbers together.");
    assert_eq!(quoted(doc, "two   numbers"), Some("two numbers".to_owned()));
    assert_eq!(quoted(doc, "adds two"), None);
    assert_eq!(quoted(doc, "  \n "), None);
    assert_eq!(quoted(None, "two numbers"), None);
}

#[test]
fn pseudocode_must_have_at_most_half_the_body_lines() {
    let body: Vec<String> = ["x", "y", " ", "z"].iter().map(|line| line.to_string()).collect();
    assert!(!compresses("a\n\nb\n", &body));
    assert!(compresses("a\n", &body));
    let longer: Vec<String> = ["x", "y", "z", "w"].iter().map(|line| line.to_string()).collect();
    assert!(compresses("a\r\n  \nb", &longer));
    assert!(compresses("", &[]));
    assert!(!compresses("a", &[]));
}

#[test]
fn documentation_joins_the_stripped_lines_of_the_docstring() {
    let side = after_side();
    assert_eq!(documentation(&side, 1), Some("Adds two numbers.".to_owned()));
    assert_eq!(documentation(&side, 99), None);
}

#[test]
fn new_bodies_are_selected_with_their_docstrings() {
    let sides = Pairing::RightOnly { rhs: after_side() };
    assert_eq!(select(&sides, 3), vec![(3, 2, 5, Some(1))]);
    assert_eq!(select(&sides, 5), vec![]);
    let folds = requests(&sides, 3);
    assert_eq!(folds.len(), 1);
    assert_eq!((folds[0].id, folds[0].first_line, folds[0].last_line, folds[0].docstring), (3, 2, 5, Some(1)));
    assert_eq!(folds[0].doc, Some("Adds two numbers.".to_owned()));
    let before = Source { text: SOURCE.to_owned(), regions: vec![leaf(20, 11, 0, 4)] };
    let paired = Pairing::Both { lhs: before, rhs: after_side() };
    assert_eq!(select(&paired, 3), vec![]);
    let deleted = Pairing::LeftOnly { lhs: after_side() };
    assert_eq!(select(&deleted, 3), vec![]);
    assert!(requests(&deleted, 3).is_empty());
}

fn request() -> Request {
    Request { id: 3, first_line: 2, last_line: 5, docstring: Some(1), doc: Some("Adds two numbers.".to_owned()) }
}

fn answer(id: u32, summary: &str, pseudocode: &str) -> Answer {
    Answer { id, summary: summary.to_owned(), pseudocode: pseudocode.to_owned() }
}

#[test]
fn answers_for_unknown_folds_fail_the_reply() {
    let folds = vec![request()];
    match summaries(&folds, &[answer(3, "", "x"), answer(9, "", "y")]) {
        Err(error) => {
            assert_eq!(error, AnswerError::UnknownFold { id: 9 });
            assert_eq!(error.message(), "answered for unknown fold 9");
        },
        Ok(_) => panic!("an unknown fold must fail"),
    }
}

#[test]
fn answers_are_trimmed_and_blank_ones_dropped() {
    let folds = vec![request()];
    let kept = summaries(&folds, &[answer(3, "Adds two numbers.", "  return a + b \n")]).unwrap();
    assert_eq!(kept.len(), 1);
    assert_eq!(kept[0].0, 3);
    assert_eq!(kept[0].1.quote, Some("Adds two numbers.".to_owned()));
    assert_eq!(kept[0].1.pseudocode, "return a + b");
    let later = summaries(&folds, &[answer(3, "", "first"), answer(3, "nothing like it", "second")]).unwrap();
    assert_eq!(later.len(), 1);
    assert_eq!(later[0].1.pseudocode, "second");
    assert_eq!(later[0].1.quote, None);
    assert!(summaries(&folds, &[answer(3, "Adds.", " \n ")]).unwrap().is_empty());
}

#[test]
fn kept_summaries_collapse_their_bodies_and_link_the_docstring() {
    let sides = Pairing::RightOnly { rhs: after_side() };
    let texts = vec![(3, Summary { quote: Some("Adds two numbers.".to_owned()), pseudocode: "a + b".to_owned() })];
    assert_eq!(
        summary_moves(&sides, &[request()], texts).unwrap(),
        vec![
            Move::SetCollapsed { region: 3, collapsed: true },
            Move::SetLabel { region: 3, label: Some("Adds two numbers.\na + b".to_owned()) },
            Move::LinkFoldState { regions: vec![3, 1] },
        ]
    );
    let long = vec![(3, Summary { quote: None, pseudocode: "a\nb\nc".to_owned() })];
    assert!(summary_moves(&sides, &[request()], long).unwrap().is_empty());
    let deleted = Pairing::LeftOnly { lhs: after_side() };
    assert!(summary_moves(&deleted, &[request()], vec![]).unwrap().is_empty());
}

fn options(endpoint: Option<&str>) -> Options {
    Options {
        provider: Provider::Gemini,
        model: "gemini-2.5-flash".to_owned(),
        min_lines: 8,
        api_key: None,
        endpoint: endpoint.map(str::to_owned),
        request_timeout_ms: 30000,
        max_concurrency: 4,
        retries: 2,
        system_prompt: String::new(),
    }
}

#[test]
fn the_url_names_the_model_under_the_endpoint_without_trailing_slashes() {
    assert_eq!(
        url(&options(None)),
        "https://generativelanguage.googleapis.com/v1beta/models/gemini-2.5-flash:generateContent"
    );
    assert_eq!(
        url(&options(Some("http://localhost:8080//"))),
        "http://localhost:8080/v1beta/models/gemini-2.5-flash:generateContent"
    );
}

#[test]
fn the_prompt_numbers_the_lines_and_lists_the_folds() {
    let folds = vec![
        Request { id: 7, first_line: 2, last_line: 3, docstring: Some(9), doc: Some("Adds.".to_owned()) },
        Request { id: 12, first_line: 5, last_line: 11, docstring: None, doc: None },
    ];
    assert_eq!(
        prompt("src/a.rs", "fn a() {\n    1\n}\n", &folds),
        "File src/a.rs:\n\n    1 | fn a() {\n    2 |     1\n    3 | }\n\nFolds:\n- fold 7: lines 2-3\n  doc: Adds.\n- fold 12: lines 5-11"
    );
    assert_eq!(prompt("b.py", "", &[]), "File b.py:\n\n\n\nFolds:\n");
}

#[test]
fn the_answer_has_room_for_every_fold() {
    assert_eq!(max_output_tokens(0), 200);
    assert_eq!(max_output_tokens(3), 2000);
}

fn response(status: u16, shown: &str, body: &str) -> Reply {
    Reply::Response { status, shown: shown.to_owned(), body: body.to_owned() }
}

#[test]
fn a_successful_response_is_read() {
    assert!(matches!(next_step("m", 2, 0, &response(200, "200 OK", "{}")), Next::Read));
}

#[test]
fn transient_failures_are_tried_again_with_a_growing_pause() {
    let busy = response(429, "429 Too Many Requests", "");
    assert!(matches!(next_step("m", 9, 0, &busy), Next::Retry { attempt: 1, delay_ms: 500 }));
    assert!(matches!(next_step("m", 9, 2, &busy), Next::Retry { attempt: 3, delay_ms: 2000 }));
    assert!(matches!(next_step("m", 9, 7, &busy), Next::Retry { attempt: 8, delay_ms: 16000 }));
    let timeout = Reply::Failure { transient: true, message: "operation timed out".to_owned() };
    assert!(matches!(next_step("m", 1, 0, &timeout), Next::Retry { attempt: 1, delay_ms: 500 }));
}

#[test]
fn used_up_tries_and_hard_failures_fail_the_call() {
    let down = response(503, "503 Service Unavailable", "");
    match next_step("gemini", 2, 2, &down) {
        Next::Fail { message } => assert_eq!(message, "gemini: HTTP 503 Service Unavailable after 3 attempts"),
        _ => panic!("expected a failure"),
    }
    let long = "x".repeat(300);
    match next_step("gemini", 2, 0, &response(400, "400 Bad Request", &long)) {
        Next::Fail { message } => assert_eq!(message, format!("gemini: HTTP 400 Bad Request {}", "x".repeat(200))),
        _ => panic!("expected a failure"),
    }
    let refused = Reply::Failure { transient: false, message: "builder error".to_owned() };
    match next_step("gemini", 2, 0, &refused) {
        Next::Fail { message } => assert_eq!(message, "gemini: builder error"),
        _ => panic!("expected a failure"),
    }
}

#[test]
fn the_language_prompt_names_the_language() {
    assert_eq!(language_prompt("b.py", Some("Python"), "", &[]), "File b.py (Python):\n\n\n\nFolds:\n");
    assert_eq!(language_prompt("b.x", None, "", &[]), "File b.x (unknown language):\n\n\n\nFolds:\n");
}

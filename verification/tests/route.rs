use diffr::route::{route, ParseOutcome, Route};

fn rust() -> Option<String> {
    Some("Rust".to_string())
}

#[test]
fn identical_files_stop_at_once() {
    assert!(matches!(route(true, rust(), false, None, 10, 10), Route::Identical));
}

#[test]
fn unknown_languages_are_diffed_by_lines() {
    assert!(matches!(route(false, None, false, None, 10, 10), Route::Lines { reason: None, keeps_trees: false }));
    assert!(matches!(route(false, None, true, None, 10, 10), Route::CheckOnlyText { reason: None }));
}

#[test]
fn parsed_files_diff_by_syntax_unless_the_graph_is_too_large() {
    let parsed = Some(ParseOutcome::Parsed { graph_limit_exceeded: false });
    assert!(matches!(route(false, rust(), false, parsed.clone(), 10, 10), Route::Syntax));
    assert!(matches!(route(false, rust(), true, parsed, 10, 10), Route::CheckOnlySyntax));
    let exceeded = Some(ParseOutcome::Parsed { graph_limit_exceeded: true });
    match route(false, rust(), false, exceeded, 1000, 10) {
        Route::Lines { reason: Some(reason), keeps_trees: true } => assert_eq!(
            reason,
            "structural diff exceeded diff.graph_limit (1000); raise it in diffr config"
        ),
        other => panic!("unexpected {other:?}"),
    }
}

#[test]
fn failed_limits_say_why() {
    let errors = Some(ParseOutcome::TooManyErrors { count: 3, first: Some(("12".to_string(), 4, true)) });
    match route(false, rust(), false, errors, 10, 10) {
        Route::Lines { reason: Some(reason), keeps_trees: true } => assert_eq!(
            reason,
            "3 Rust parse errors, exceeded DFT_PARSE_ERROR_LIMIT, first at 12:4 in initial file"
        ),
        other => panic!("unexpected {other:?}"),
    }
    let one = Some(ParseOutcome::TooManyErrors { count: 1, first: None });
    match route(false, rust(), true, one, 10, 10) {
        Route::CheckOnlyText { reason: Some(reason) } => {
            assert_eq!(reason, "1 Rust parse error, exceeded DFT_PARSE_ERROR_LIMIT")
        }
        other => panic!("unexpected {other:?}"),
    }
    let large = Some(ParseOutcome::TooLarge { size: "2.0 MiB".to_string() });
    match route(false, rust(), false, large, 10, 1048576) {
        Route::Lines { reason: Some(reason), keeps_trees: false } => assert_eq!(
            reason,
            "2.0 MiB exceeded diff.byte_limit (1048576); raise it in diffr config"
        ),
        other => panic!("unexpected {other:?}"),
    }
}

use diffr::category::{from_path, DOCS, GENERATED, TEST};

#[test]
fn built_in_rules_cover_the_common_layouts() {
    for path in [
        "Cargo.lock",
        "web/pnpm-lock.yaml",
        "dist/app.js",
        "src/vendor/lib.c",
        "assets/app.min.js",
        "api/v1/service.pb.go",
        "schema.generated.ts",
        "src/__generated__/types.ts",
        "src/model_generated.rs",
    ] {
        assert_eq!(from_path(path), Some(GENERATED), "{path}");
    }
    for path in [
        "tests/streaming/check.py",
        "src/foo_test.go",
        "src/App.test.tsx",
        "src/App.spec.ts",
        "pkg/test_widgets.py",
        "pkg/conftest.py",
        "src/__tests__/a.js",
        "spec/models/user_spec.rb",
        "src/review/tests.rs",
        "src/parser/test.rs",
        "src/git_test.rs",
        "src/protocol_tests.rs",
    ] {
        assert_eq!(from_path(path), Some(TEST), "{path}");
    }
    for path in ["README.md", "docs/cli.md", "docs/assets/a.png"] {
        assert_eq!(from_path(path), Some(DOCS), "{path}");
    }
    for path in [
        "src/main.rs",
        "testing/helpers.rs",
        "src/testament.py",
        "latest.txt",
    ] {
        assert_eq!(from_path(path), None, "{path}");
    }
}

#[test]
fn generated_wins_over_test_and_docs() {
    assert_eq!(from_path("tests/fixtures/big.lock"), Some(GENERATED));
    assert_eq!(from_path("docs/build/index.html"), Some(GENERATED));
}

#[test]
fn empty_parts_and_bare_separators_have_no_category() {
    assert_eq!(from_path(""), None);
    assert_eq!(from_path("///"), None);
    assert_eq!(from_path("//docs//guide.txt"), Some(DOCS));
    assert_eq!(from_path("a/b.spec.js/"), Some(TEST));
}

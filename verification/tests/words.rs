use codegraph::like::matches_like;
use codegraph::words::{is_test_path, subwords};

#[test]
fn subwords_splits_camel_snake_digits() {
    assert_eq!(subwords("OrderCheckoutSession"), "order checkout session");
    assert_eq!(subwords("HTTPServer2Go"), "http server 2 go");
    assert_eq!(subwords("snake_case_name"), "snake case name");
    assert_eq!(subwords("plain"), "");
}

#[test]
fn subwords_beyond_ascii() {
    assert_eq!(subwords("ÄrgerÜber"), "ärger über");
    assert_eq!(subwords("un_État"), "un état");
}

#[test]
fn like_patterns() {
    assert!(matches_like("src/a.rs", "src/%"));
    assert!(matches_like("SRC/A.rs", "src/_.RS"));
    assert!(!matches_like("lib/a.rs", "src/%"));
    assert!(matches_like("", "%"));
    assert!(!matches_like("", "_"));
}

#[test]
fn tokens_not_substrings() {
    for p in [
        "src/foo_test.go", "Tests/AuthTests.swift", "src/__tests__/x.ts",
        "spec/y_spec.rb", "tests/test_foo.py", "src/user.spec.ts", "FooTest.java",
    ] {
        assert!(is_test_path(p), "{p} IS a test path");
    }
    for p in [
        "src/latest_prices.rs", "src/contest.py", "pkg/attestation.go",
        "src/spectrum.ts", "app/protester.rb", "src/inspection.java",
    ] {
        assert!(!is_test_path(p), "{p} is NOT a test path");
    }
}

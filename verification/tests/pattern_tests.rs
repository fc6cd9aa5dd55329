use codeowners_validation::pattern::{
    classify, compile_primitives, is_below_root, render_primitive, PrimitiveForm,
};

#[test]
fn anchored_directory_takes_itself_and_what_is_beneath() {
    assert_eq!(classify(true, true, false), vec![PrimitiveForm::Exact, PrimitiveForm::Subtree]);
    assert_eq!(classify(true, true, true), vec![PrimitiveForm::Exact, PrimitiveForm::Subtree]);
    assert_eq!(compile_primitives("docs", "/docs/"), vec!["docs", "docs/**"]);
}

#[test]
fn anchored_file_takes_itself() {
    assert_eq!(classify(true, false, false), vec![PrimitiveForm::Exact]);
    assert_eq!(classify(true, false, true), vec![PrimitiveForm::Exact]);
    assert_eq!(compile_primitives("src/file.rs", "/src/file.rs"), vec!["src/file.rs"]);
    assert_eq!(compile_primitives("src/*.rs", "/src/*.rs"), vec!["src/*.rs"]);
}

#[test]
fn unanchored_directory_is_taken_at_any_depth() {
    assert_eq!(classify(false, true, false), vec![PrimitiveForm::AnyDepth, PrimitiveForm::AnyDepthSubtree]);
    assert_eq!(classify(false, true, true), vec![PrimitiveForm::AnyDepth, PrimitiveForm::AnyDepthSubtree]);
    assert_eq!(compile_primitives("lib", "lib/"), vec!["**/lib", "**/lib/**"]);
    assert_eq!(compile_primitives("lib*", "lib*/"), vec!["**/lib*", "**/lib*/**"]);
}

#[test]
fn unanchored_file_is_taken_at_any_depth_unless_it_holds_a_wildcard() {
    assert_eq!(classify(false, false, true), vec![PrimitiveForm::Exact]);
    assert_eq!(classify(false, false, false), vec![PrimitiveForm::AnyDepth]);
    assert_eq!(compile_primitives("*.rs", "*.rs"), vec!["*.rs"]);
    assert_eq!(compile_primitives("a?c", "a?c"), vec!["a?c"]);
    assert_eq!(compile_primitives("a[bc]", "a[bc]"), vec!["a[bc]"]);
    assert_eq!(compile_primitives("config.json", "config.json"), vec!["**/config.json"]);
    assert_eq!(compile_primitives("a]b", "a]b"), vec!["**/a]b"]);
}

#[test]
fn source_text_alone_decides_anchoring() {
    assert_eq!(compile_primitives("x", ""), vec!["**/x"]);
    assert_eq!(compile_primitives("", "/"), vec!["", "/**"]);
    assert_eq!(compile_primitives("x/", "/x//"), vec!["x/", "x//**"]);
}

#[test]
fn renders_each_form() {
    assert_eq!(render_primitive(PrimitiveForm::Exact, "p/q"), "p/q");
    assert_eq!(render_primitive(PrimitiveForm::Subtree, "p/q"), "p/q/**");
    assert_eq!(render_primitive(PrimitiveForm::AnyDepth, "p/q"), "**/p/q");
    assert_eq!(render_primitive(PrimitiveForm::AnyDepthSubtree, "p/q"), "**/p/q/**");
    assert_eq!(render_primitive(PrimitiveForm::AnyDepthSubtree, ""), "**//**");
}

#[test]
fn path_with_a_root_or_a_way_up_leaves_the_repository() {
    for path in ["", "a", "a/b.txt", "a/..b/c..", "...", "a/.../b", ".", "./a", "a//b"] {
        assert!(is_below_root(path), "{:?}", path);
    }
    for path in ["/", "/a", "..", "../a", "a/..", "a/../b", "a/b/../../..", "//a"] {
        assert!(!is_below_root(path), "{:?}", path);
    }
}

use editor_input::snippet_transform::SnippetTransform;

#[test]
fn applies_capture_case_conditionals_and_global_replacements() {
    let pascal =
        SnippetTransform::parse("([a-z]+)-([a-z]+)", "${1:/capitalize}${2:/capitalize}", "")
            .unwrap();
    assert_eq!(pascal.apply("hello-world"), "HelloWorld");

    let global = SnippetTransform::parse(".", "=", "g").unwrap();
    assert_eq!(global.apply("banner"), "======");

    let conditional = SnippetTransform::parse("(foo)?", "${1:?yes:no}", "").unwrap();
    assert_eq!(conditional.apply("foo"), "yes");
    assert_eq!(conditional.apply(""), "no");
}

#[test]
fn supports_bounded_lookaround_and_backreferences() {
    let lookbehind = SnippetTransform::parse("(?<=foo)(bar)", "${1:/upcase}", "").unwrap();
    assert_eq!(lookbehind.apply("foobar"), "fooBAR");

    let backreference = SnippetTransform::parse(r"(\w+)\s+\1", "$1", "").unwrap();
    assert_eq!(backreference.apply("echo echo"), "echo");
}

#[test]
fn rejects_unknown_or_duplicated_javascript_flags() {
    assert!(SnippetTransform::parse(".", "x", "y").is_none());
    assert!(SnippetTransform::parse(".", "x", "gg").is_none());
}

#[test]
fn a_pattern_that_does_not_compile_gives_no_transform() {
    assert!(SnippetTransform::parse("(", "x", "").is_none());
}

#[test]
fn case_operations_rewrite_words() {
    let camel = SnippetTransform::parse("(.*)", "${1:/camelcase}", "").unwrap();
    assert_eq!(camel.apply("hello_big world"), "helloBigWorld");
    let pascal = SnippetTransform::parse("(.*)", "${1:/pascalcase}", "").unwrap();
    assert_eq!(pascal.apply("hello-world"), "HelloWorld");
    let snake = SnippetTransform::parse("(.*)", "${1:/snakecase}", "").unwrap();
    assert_eq!(snake.apply("helloWorld"), "hello_world");
    let kebab = SnippetTransform::parse("(.*)", "${1:/kebabcase}", "").unwrap();
    assert_eq!(kebab.apply("helloWorld"), "hello-world");
    let down = SnippetTransform::parse("(.*)", "${1:/downcase}", "").unwrap();
    assert_eq!(down.apply("ÄB"), "äb");
}

#[test]
fn text_outside_a_match_stays() {
    let transform = SnippetTransform::parse("b+", "[$0]", "").unwrap();
    assert_eq!(transform.apply("abbc bb"), "a[bb]c bb");
    assert_eq!(transform.apply("none"), "none");
    let missing = SnippetTransform::parse("(x)?b", "${1:-none}", "i").unwrap();
    assert_eq!(missing.apply("B"), "none");
}

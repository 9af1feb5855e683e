use rustytime::tags::parse_tags;

#[test]
fn a_plus_prefixed_token_is_a_tag() {
    let r = parse_tags("+work").expect("the token parses");
    assert_eq!(r, "work");
}

#[test]
fn the_prefix_alone_yields_the_empty_label() {
    let r = parse_tags("+").expect("the token parses");
    assert_eq!(r, "");
}

#[test]
fn a_bare_token_is_rejected() {
    let e = parse_tags("work").expect_err("the token is rejected");
    assert_eq!(e.message(), "Tag must start with '+'");
    let e2 = parse_tags("").expect_err("the empty token is rejected");
    assert_eq!(e2.message(), "Tag must start with '+'");
}

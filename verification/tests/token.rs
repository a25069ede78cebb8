use static_routing::token::{find, tokenize, Attr, TokenError, Tokens};

fn attr(key: &str, value: &str) -> Attr {
    Attr { key: key.to_string(), value: value.to_string() }
}

#[test]
fn line_taken_apart() {
    let got = tokenize("route4 add to 192.0.2.0/24 via 192.0.2.1 dev eth0").unwrap();
    let want = Tokens {
        version: "route4".to_string(),
        delete: false,
        attrs: vec![attr("to", "192.0.2.0/24"), attr("via", "192.0.2.1"), attr("dev", "eth0")],
    };
    assert_eq!(got, want);
    assert_eq!(find(&got.attrs, "via"), Some(&"192.0.2.1".to_string()));
    assert_eq!(find(&got.attrs, "table"), None);
}

#[test]
fn any_first_word_and_no_attributes() {
    let got = tokenize("anything del").unwrap();
    assert_eq!(got, Tokens { version: "anything".to_string(), delete: true, attrs: vec![] });
}

#[test]
fn lines_that_cannot_be_taken_apart() {
    assert_eq!(tokenize(""), Err(TokenError::NoVersion));
    assert_eq!(tokenize(" \t "), Err(TokenError::NoVersion));
    assert_eq!(tokenize("rule"), Err(TokenError::NoCmd));
    assert_eq!(tokenize("rule ADD"), Err(TokenError::InvalidCmd("ADD".to_string())));
    assert_eq!(tokenize("rule add a"), Err(TokenError::NoAttrValue("a".to_string())));
    assert_eq!(tokenize("rule add a 1 b 2 a 3"), Err(TokenError::DuplicateAttr("a".to_string())));
}

#[test]
fn first_fault_from_the_left() {
    assert_eq!(tokenize("x add a 1 a 2 b"), Err(TokenError::DuplicateAttr("a".to_string())));
    assert_eq!(tokenize("x add a 1 b 2 a"), Err(TokenError::NoAttrValue("a".to_string())));
    assert_eq!(
        tokenize("x add a 1 b 2 b 3 a 4"),
        Err(TokenError::DuplicateAttr("b".to_string()))
    );
    assert_eq!(tokenize("x nop a 1 a 2 b"), Err(TokenError::InvalidCmd("nop".to_string())));
}

#[test]
fn values_may_repeat() {
    let got = tokenize("x add a 1 b 1 c a").unwrap();
    assert_eq!(got.attrs, vec![attr("a", "1"), attr("b", "1"), attr("c", "a")]);
}

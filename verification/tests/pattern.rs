use nix_index::json::{member, Json, Member};
use nix_index::package::{PathOrigin, StorePath};
use nix_index::pattern::rewrite;
use regex::bytes::Regex;

fn matches(pattern: &str, text: &[u8]) -> bool {
    Regex::new(&rewrite(pattern).unwrap()).unwrap().is_match(text)
}

#[test]
fn start_anchor_becomes_a_zero_byte() {
    assert_eq!(rewrite("^"), Some("(?-u:\\x00)".to_string()));
    assert_eq!(rewrite("^/bin/"), Some("(?-u:\\x00)(?u:/bin/)".to_string()));
}

#[test]
fn pattern_without_anchor_keeps_its_meaning() {
    assert_eq!(rewrite("lib"), Some("(?u:lib)".to_string()));
    assert!(matches("lib+", b"f\x001r\x00/libb"));
    assert!(!matches("lib+", b"f\x001r\x00/li"));
}

#[test]
fn anchors_inside_groups_and_alternatives_are_replaced() {
    assert!(matches("(^/bin|^/sbin)/ls", b"f\x001x\x00/sbin/ls"));
    assert!(matches("(^/bin|^/sbin)/ls", b"f\x001x\x00/bin/ls"));
    assert!(!matches("(^/bin|^/sbin)/ls", b"f\x001x\x00/usr/bin/ls"));
    assert!(matches("(?:(^/a)+)b", b"\x00/ab"));
    assert!(!matches("(?:(^/a)+)b", b"/ab"));
    assert!(matches("x|(y|(^z))", b"..\x00z"));
    assert!(!matches("x|(y|(^z))", b"..z"));
}

#[test]
fn end_anchor_is_kept() {
    assert!(matches("^/bin/ls$", b"f\x001x\x00/bin/ls"));
    assert!(!matches("^/bin/ls$", b"f\x001x\x00/bin/lsof"));
}

#[test]
fn pattern_that_is_none_gives_nothing() {
    assert_eq!(rewrite("(unclosed"), None);
    assert_eq!(rewrite("a{2,1}"), None);
}

#[test]
fn store_path_as_json() {
    let origin = PathOrigin { attr: "a.b".to_string(), output: "out".to_string(), toplevel: false };
    let path = StorePath::new("hash".to_string(), "na\"me\n".to_string(), origin);
    let json = path.to_json();
    assert_eq!(
        json,
        b"{\"hash\":\"hash\",\"name\":\"na\\\"me\\n\",\"origin\":{\"attr\":\"a.b\",\"output\":\"out\",\"toplevel\":false}}"
            .to_vec()
    );
    let back = StorePath::from_json(&json).unwrap();
    assert_eq!(back.hash(), "hash");
    assert_eq!(back.name(), "na\"me\n");
    assert_eq!(back.origin().attr, "a.b");
    assert_eq!(back.origin().output, "out");
    assert!(!back.origin().toplevel);
    assert!(back.has_hash(&"hash".to_string()));
    assert!(!back.has_hash(&"other".to_string()));
}

#[test]
fn json_that_is_no_store_path_gives_nothing() {
    assert!(StorePath::from_json(b"").is_none());
    assert!(StorePath::from_json(b"{}").is_none());
    assert!(StorePath::from_json(b"[1, 2]").is_none());
    assert!(StorePath::from_json(b"{\"hash\":\"h\",\"name\":\"n\"}").is_none());
    assert!(StorePath::from_json(
        b"{\"hash\":1,\"name\":\"n\",\"origin\":{\"attr\":\"a\",\"output\":\"o\",\"toplevel\":true}}"
    )
    .is_none());
    assert!(StorePath::from_json(
        b"{\"hash\":\"h\",\"name\":\"n\",\"origin\":{\"attr\":\"a\",\"output\":\"o\",\"toplevel\":\"yes\"}}"
    )
    .is_none());
    assert!(StorePath::from_json(
        b"{\"hash\":\"h\",\"name\":\"n\",\"origin\":{\"attr\":\"a\",\"output\":\"o\",\"toplevel\":true}}"
    )
    .is_some());
}

#[test]
fn store_paths_are_equal_by_hash() {
    let origin = |attr: &str| PathOrigin {
        attr: attr.to_string(),
        output: "out".to_string(),
        toplevel: true,
    };
    let a = StorePath::new("h".to_string(), "one".to_string(), origin("x"));
    let b = StorePath::new("h".to_string(), "two".to_string(), origin("y"));
    let c = StorePath::new("g".to_string(), "one".to_string(), origin("x"));
    assert!(a == b);
    assert!(a != c);
    assert!(a.clone() == a);
    assert_eq!(a.clone().name(), "one");
}

#[test]
fn json_values_are_written_and_read() {
    let value = Json::Object(vec![
        Json::text_member("a", "x\ny"),
        Member { name: "b".to_string(), value: Json::Boolean(true) },
        Member { name: "c".to_string(), value: Json::Object(Vec::new()) },
    ]);
    let text = value.write();
    assert_eq!(text, b"{\"a\":\"x\\ny\",\"b\":true,\"c\":{}}".to_vec());
    match Json::read(&text) {
        Some(Json::Object(members)) => {
            assert_eq!(members.len(), 3);
            assert!(matches!(member(&members, "a"), Some(Json::Text(t)) if t == "x\ny"));
            assert!(matches!(member(&members, "b"), Some(Json::Boolean(true))));
            assert!(matches!(member(&members, "c"), Some(Json::Object(inner)) if inner.is_empty()));
            assert!(member(&members, "d").is_none());
        }
        _ => panic!("expected an object"),
    }
    assert!(matches!(Json::read(b"[1, null]"), Some(Json::Other(_))));
    assert!(matches!(Json::read(b"\"t\""), Some(Json::Text(t)) if t == "t"));
    assert!(Json::read(b"{").is_none());
    let back = Json::read(b" {\"z\": 1.5, \"a\": [false]} ").unwrap();
    assert_eq!(back.write(), b"{\"a\":[false],\"z\":1.5}".to_vec());
}

#[test]
fn store_path_json_may_hold_more_than_is_read() {
    let path = StorePath::from_json(
        b"{\"store_dir\":\"/nix/store\",\"name\":\"n\",\"hash\":\"h\",\"origin\":{\"toplevel\":false,\"system\":null,\"output\":\"o\",\"attr\":\"a\"}}",
    )
    .unwrap();
    assert_eq!(path.hash(), "h");
    assert_eq!(path.name(), "n");
    assert_eq!(path.origin().attr, "a");
    assert_eq!(path.origin().output, "o");
    assert!(!path.origin().toplevel);
}

#[test]
fn store_path_as_text() {
    let origin = PathOrigin { attr: "a".to_string(), output: "out".to_string(), toplevel: true };
    let path = StorePath::new("0abc".to_string(), "hello-2.10".to_string(), origin);
    assert_eq!(path.as_str(), "/nix/store/0abc-hello-2.10");
}

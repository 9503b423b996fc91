use surreal_executor::endpoint::{IntoEndpoint, Level, Strict};
use surreal_executor::err::Error;

#[test]
fn path_becomes_an_endpoint() {
    let e = "temp.db".into_endpoint().unwrap();
    assert_eq!(e.endpoint, "redb://temp.db");
    assert!(!e.strict);
    assert_eq!(e.auth, Level::No);
    assert_eq!(e.username, "");
    assert_eq!(e.password, "");
}

#[test]
fn endpoint_is_written_as_the_parser_writes_it() {
    let e = "tmp/my db".into_endpoint().unwrap();
    assert_eq!(e.endpoint, "redb://tmp/my%20db");
    let e = "tmp/db  ".into_endpoint().unwrap();
    assert_eq!(e.endpoint, "redb://tmp/db");
}

#[test]
fn strict_endpoint_is_strict() {
    let e = ("temp.db", Strict).into_endpoint().unwrap();
    assert_eq!(e.endpoint, "redb://temp.db");
    assert!(e.strict);
}

#[test]
fn bad_url_is_refused() {
    assert!(matches!("[".into_endpoint(), Err(Error::InvalidUrl(u)) if u == "redb://["));
    assert!(matches!(("[", Strict).into_endpoint(), Err(Error::InvalidUrl(u)) if u == "redb://["));
}

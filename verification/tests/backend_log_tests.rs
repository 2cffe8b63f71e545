//! Parsing the backend message log.

use graph_presenter::backend_log::Direction;
use graph_presenter::backend_log::ParseError;
use graph_presenter::backend_log::parse_direction;
use graph_presenter::backend_log::parse_log;
use graph_presenter::backend_log::parse_message;
use graph_presenter::backend_log::split_on;
use graph_presenter::backend_log::str_eq;

#[test]
fn directions() {
    assert_eq!(parse_direction("Request"), Some(Direction::Request));
    assert_eq!(parse_direction("Response"), Some(Direction::Response));
    assert_eq!(parse_direction("request"), None);
    assert_eq!(parse_direction(""), None);
}

#[test]
fn splitting() {
    let f = split_on("a,b,,c", ',');
    assert_eq!(f, vec!["a", "b", "", "c"]);
    assert_eq!(split_on("", ','), vec![""]);
    assert_eq!(split_on("abc", ','), vec!["abc"]);
    assert_eq!(split_on("x,", ','), vec!["x", ""]);
    assert!(str_eq("same", "same"));
    assert!(!str_eq("same", "sane"));
}

#[test]
fn message_lines() {
    let m = parse_message("2020-01-01T00:00:00Z,Request,,session/initProtocolConnection").unwrap();
    assert_eq!(m.timestamp_ms, 1_577_836_800_000);
    assert_eq!(m.direction, Direction::Request);
    assert!(m.request_id.is_none());
    assert_eq!(m.endpoint, "session/initProtocolConnection");

    let m = parse_message("1996-12-19T16:39:57-08:00,Response,abc-42,text/applyEdit").unwrap();
    assert_eq!(m.timestamp_ms, 851_042_397_000);
    assert_eq!(m.direction, Direction::Response);
    assert_eq!(m.request_id.unwrap().0, "abc-42");
    assert_eq!(m.endpoint, "text/applyEdit");
}

#[test]
fn message_errors() {
    assert_eq!(
        parse_message("too,few").unwrap_err(),
        ParseError::FieldCount
    );
    assert_eq!(
        parse_message("not a time,Request,,ep").unwrap_err(),
        ParseError::Timestamp
    );
    assert_eq!(
        parse_message("2020-01-01T00:00:00Z,Sideways,,ep").unwrap_err(),
        ParseError::Direction
    );
}

#[test]
fn whole_log() {
    let log = "2020-01-01T00:00:00Z,Request,1,first/call\n\
               2020-01-01T00:00:01Z,Response,1,first/call\n\
               \n\
               2020-01-01T00:00:02Z,Request,,second/call\n";
    let messages = parse_log(log).unwrap();
    assert_eq!(messages.len(), 3);
    assert_eq!(messages[0].timestamp_ms, 1_577_836_800_000);
    assert_eq!(messages[1].timestamp_ms, 1_577_836_801_000);
    assert_eq!(messages[1].direction, Direction::Response);
    assert_eq!(messages[2].endpoint, "second/call");
    assert!(messages[2].request_id.is_none());

    let bad = "2020-01-01T00:00:00Z,Request,1,ok\nbroken line\n";
    assert!(parse_log(bad).is_err());
}

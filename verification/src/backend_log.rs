//! The backend message log: the comma-separated records of messages between
//! the language server and the compiler, as captured beside a profile.
//!
//! One line holds a timestamp, a direction, an optional request id and an
//! endpoint name, separated by commas.  The timestamp is an RFC 3339
//! date-and-time; the log stores it here as milliseconds since the Unix
//! epoch.

use vstd::prelude::*;

use crate::snapshot::find_index;
use crate::snapshot::lemma_find_index_at;
use crate::snapshot::lemma_find_index_none;

verus! {

/// A request id as the backend logs it: an opaque token.
#[derive(Clone, Debug)]
pub struct Uuid(pub String);

/// Whether the primary process is the sender or the receiver of a message.
#[derive(Clone, Copy, Debug, PartialEq, Eq, Structural)]
pub enum Direction {
    /// First process to second process.
    Request,
    /// Second process to first process.
    Response,
}

/// One message between the language server and the compiler, as carried in a
/// profile's metadata.
#[derive(Clone, Debug)]
pub struct BackendMessage {
    pub direction: Direction,
    pub request_id: Option<Uuid>,
    pub endpoint: String,
}

/// One parsed line of the backend message log.
#[derive(Clone, Debug)]
pub struct Message {
    pub timestamp_ms: i64,
    pub direction: Direction,
    pub request_id: Option<Uuid>,
    pub endpoint: String,
}

/// Mathematical value of a [`Message`].
#[verifier::ext_equal]
pub struct MessageModel {
    pub timestamp_ms: i64,
    pub direction: Direction,
    pub request_id: Option<Seq<char>>,
    pub endpoint: Seq<char>,
}

impl View for Message {
    type V = MessageModel;

    open spec fn view(&self) -> MessageModel {
        MessageModel {
            timestamp_ms: self.timestamp_ms,
            direction: self.direction,
            request_id: match self.request_id {
                Some(ref u) => Some(u.0@),
                None => None,
            },
            endpoint: self.endpoint@,
        }
    }
}

/// The milliseconds since the Unix epoch denoted by an RFC 3339
/// date-and-time text, or `None` when the text is not one.  The value is a
/// function of the text alone.
pub uninterp spec fn rfc3339_millis(s: Seq<char>) -> Option<i64>;

/// Relies on chrono's `DateTime::parse_from_rfc3339` to read an RFC 3339
/// date-and-time, and on `timestamp_millis` to turn it into milliseconds
/// since the Unix epoch; both are pure functions of the text.
#[verifier::external_body]
fn parse_rfc3339_millis(s: &str) -> (r: Option<i64>)
    ensures
        r == rfc3339_millis(s@),
{
    match chrono::DateTime::parse_from_rfc3339(s) {
        Ok(t) => Some(t.timestamp_millis()),
        Err(_) => None,
    }
}

/// Whether two texts hold the same characters.
#[verifier::loop_isolation(false)]
pub fn str_eq(a: &str, b: &str) -> (r: bool)
    ensures
        r == (a@ =~= b@),
{
    let la: usize = a.unicode_len();
    let lb: usize = b.unicode_len();
    if la != lb {
        return false;
    }
    let mut i: usize = 0;
    while i < la
        invariant
            i <= a@.len(),
            a@.len() == b@.len(),
            la == a@.len(),
            forall|j: int| 0 <= j < i ==> a@[j] == b@[j],
        decreases la - i,
    {
        if a.get_char(i) != b.get_char(i) {
            return false;
        }
        i += 1;
    }
    true
}

/// The direction denoted by a log field.
pub open spec fn direction_of(s: Seq<char>) -> Option<Direction> {
    if s =~= "Request"@ {
        Some(Direction::Request)
    } else if s =~= "Response"@ {
        Some(Direction::Response)
    } else {
        None
    }
}

/// Parse the direction field of a log line.
pub fn parse_direction(s: &str) -> (r: Option<Direction>)
    ensures
        r == direction_of(s@),
{
    if str_eq(s, "Request") {
        Some(Direction::Request)
    } else if str_eq(s, "Response") {
        Some(Direction::Response)
    } else {
        proof {
            assert(direction_of(s@) is None);
        }
        None
    }
}

/// Whether a character is the separator.
pub open spec fn sep_pred(sep: char) -> spec_fn(char) -> bool {
    |c: char| c == sep
}

/// The segments of `s` between occurrences of the separator, in order.  A
/// text with no separator is one segment; each separator ends a segment.
pub open spec fn split_on_spec(s: Seq<char>, sep: char) -> Seq<Seq<char>>
    decreases s.len(),
{
    let k = find_index(s, sep_pred(sep));
    if k < 0 || k >= s.len() {
        seq![s]
    } else {
        seq![s.take(k)] + split_on_spec(s.skip(k + 1), sep)
    }
}

/// Split `s` at every occurrence of the separator.
#[verifier::loop_isolation(false)]
pub fn split_on(s: &str, sep: char) -> (r: Vec<String>)
    ensures
        Seq::new(r@.len(), |i: int| r@[i]@) =~= split_on_spec(s@, sep),
    decreases s@.len(),
{
    let ghost p = sep_pred(sep);
    let len: usize = s.unicode_len();
    let mut k: usize = 0;
    while k < len
        invariant
            k <= s@.len(),
            len == s@.len(),
            forall|j: int| 0 <= j < k ==> s@[j] != sep,
        decreases len - k,
    {
        if s.get_char(k) == sep {
            proof {
                assert(p(s@[k as int]));
                lemma_find_index_at(s@, p, k as int);
            }
            let head = s.substring_char(0, k);
            let tail = s.substring_char(k + 1, len);
            let mut rest = split_on(tail, sep);
            let mut r: Vec<String> = Vec::new();
            r.push(head.to_owned());
            let ghost pre = r@;
            let mut i: usize = 0;
            while i < rest.len()
                invariant
                    i <= rest@.len(),
                    r@.len() == 1 + i,
                    r@[0]@ == s@.take(k as int),
                    forall|j: int| 0 <= j < i ==> r@[j + 1] == rest@[j],
                decreases rest@.len() - i,
            {
                let f = rest[i].clone();
                r.push(f);
                i += 1;
            }
            proof {
                let model = Seq::new(r@.len(), |i: int| r@[i]@);
                let want = seq![s@.take(k as int)] + split_on_spec(s@.skip(k as int + 1), sep);
                assert(tail@ == s@.skip(k as int + 1)) by {
                    assert(s@.subrange(k as int + 1, s@.len() as int) =~= s@.skip(k as int + 1));
                }
                assert(Seq::new(rest@.len(), |i: int| rest@[i]@) =~= split_on_spec(
                    s@.skip(k as int + 1),
                    sep,
                ));
                assert forall|j: int| 0 <= j < model.len() implies model[j] == want[j] by {
                    if j > 0 {
                        assert(r@[j] == rest@[j - 1]);
                        assert(Seq::new(rest@.len(), |i: int| rest@[i]@)[j - 1] == rest@[j - 1]@);
                    }
                }
                assert(model =~= want);
            }
            return r;
        }
        k += 1;
    }
    proof {
        lemma_find_index_none(s@, p);
    }
    let mut r: Vec<String> = Vec::new();
    r.push(s.to_owned());
    proof {
        assert(Seq::new(r@.len(), |i: int| r@[i]@) =~= seq![s@]);
    }
    r
}

/// The message denoted by one log line, or `None` when the line does not
/// have four fields, a well-formed timestamp and a known direction.  An
/// empty request-id field means the message has none.
pub open spec fn message_of_line(line: Seq<char>) -> Option<MessageModel> {
    let f = split_on_spec(line, ',');
    if f.len() != 4 {
        None
    } else {
        match (rfc3339_millis(f[0]), direction_of(f[1])) {
            (Some(ts), Some(d)) => Some(
                MessageModel {
                    timestamp_ms: ts,
                    direction: d,
                    request_id: if f[2].len() == 0 {
                        None
                    } else {
                        Some(f[2])
                    },
                    endpoint: f[3],
                },
            ),
            _ => None,
        }
    }
}

/// Parse one line of the backend message log: timestamp, direction, optional
/// request id and endpoint, separated by commas.  A line with the wrong
/// number of fields, an unreadable timestamp or an unknown direction is
/// rejected, each cause with its own error.
pub fn parse_message(line: &str) -> (r: Result<Message, ParseError>)
    ensures
        (match r {
            Ok(m) => message_of_line(line@) == Some(m@),
            Err(ParseError::FieldCount) => split_on_spec(line@, ',').len() != 4,
            Err(ParseError::Timestamp) => {
                let f = split_on_spec(line@, ',');
                f.len() == 4 && rfc3339_millis(f[0]) is None
            },
            Err(ParseError::Direction) => {
                let f = split_on_spec(line@, ',');
                f.len() == 4 && rfc3339_millis(f[0]) is Some && direction_of(f[1]) is None
            },
        }),
        r is Err <==> message_of_line(line@) is None,
{
    let fields = split_on(line, ',');
    let ghost f = split_on_spec(line@, ',');
    if fields.len() != 4 {
        return Err(ParseError::FieldCount);
    }
    let ts = match parse_rfc3339_millis(fields[0].as_str()) {
        Some(t) => t,
        None => {
            return Err(ParseError::Timestamp);
        },
    };
    let d = match parse_direction(fields[1].as_str()) {
        Some(d) => d,
        None => {
            return Err(ParseError::Direction);
        },
    };
    let request_id = if fields[2].as_str().unicode_len() == 0 {
        None
    } else {
        Some(Uuid(fields[2].clone()))
    };
    let endpoint = fields[3].clone();
    let m = Message { timestamp_ms: ts, direction: d, request_id, endpoint };
    proof {
        assert(fields@[0]@ == f[0] && fields@[1]@ == f[1] && fields@[2]@ == f[2] && fields@[3]@
            == f[3]) by {
            assert(Seq::new(fields@.len(), |i: int| fields@[i]@)[0] == fields@[0]@);
            assert(Seq::new(fields@.len(), |i: int| fields@[i]@)[1] == fields@[1]@);
            assert(Seq::new(fields@.len(), |i: int| fields@[i]@)[2] == fields@[2]@);
            assert(Seq::new(fields@.len(), |i: int| fields@[i]@)[3] == fields@[3]@);
        }
        assert(message_of_line(line@) matches Some(mm) && mm =~= m@);
    }
    Ok(m)
}

/// Why a log line or a log was rejected.
#[derive(Clone, Copy, Debug, PartialEq, Eq, Structural)]
pub enum ParseError {
    /// A line does not have exactly four comma-separated fields.
    FieldCount,
    /// A timestamp field is not an RFC 3339 date-and-time.
    Timestamp,
    /// A direction field names neither direction.
    Direction,
}

/// The messages denoted by a whole log, one per nonempty line, or `None`
/// when some nonempty line is rejected.
pub open spec fn messages_of_log(lines: Seq<Seq<char>>) -> Option<Seq<MessageModel>>
    decreases lines.len(),
{
    if lines.len() == 0 {
        Some(Seq::empty())
    } else {
        match messages_of_log(lines.drop_last()) {
            None => None,
            Some(rest) => if lines.last().len() == 0 {
                Some(rest)
            } else {
                match message_of_line(lines.last()) {
                    Some(m) => Some(rest.push(m)),
                    None => None,
                }
            },
        }
    }
}

/// Parse a backend message log: one message per nonempty line.  A log with
/// any unreadable nonempty line is rejected as a whole.
#[verifier::loop_isolation(false)]
pub fn parse_log(log: &str) -> (r: Result<Vec<Message>, ParseError>)
    ensures
        (match r {
            Ok(ms) => messages_of_log(split_on_spec(log@, '\n')) == Some(
                Seq::new(ms@.len(), |i: int| ms@[i]@),
            ),
            Err(_) => messages_of_log(split_on_spec(log@, '\n')) is None,
        }),
{
    let lines = split_on(log, '\n');
    let ghost lm = split_on_spec(log@, '\n');
    let mut ms: Vec<Message> = Vec::new();
    let mut i: usize = 0;
    while i < lines.len()
        invariant
            i <= lines@.len(),
            Seq::new(lines@.len(), |k: int| lines@[k]@) =~= lm,
            messages_of_log(lm.take(i as int)) == Some(
                Seq::new(ms@.len(), |k: int| ms@[k]@),
            ),
        decreases lines@.len() - i,
    {
        let ghost pre = Seq::new(ms@.len(), |k: int| ms@[k]@);
        proof {
            let t1 = lm.take(i as int + 1);
            assert(t1.drop_last() =~= lm.take(i as int));
            assert(t1.last() == lm[i as int]);
            assert(messages_of_log(t1.drop_last()) == messages_of_log(lm.take(i as int)));
            assert(lines@[i as int]@ == lm[i as int]) by {
                assert(Seq::new(lines@.len(), |k: int| lines@[k]@)[i as int] == lines@[i as int]@);
            }
        }
        if lines[i].as_str().unicode_len() > 0 {
            match parse_message(lines[i].as_str()) {
                Ok(m) => {
                    ms.push(m);
                    proof {
                        assert(Seq::new(ms@.len(), |k: int| ms@[k]@) =~= pre.push(
                            ms@[ms@.len() - 1]@,
                        ));
                    }
                },
                Err(e) => {
                    proof {
                        assert(messages_of_log(lm.take(i as int + 1)) is None);
                        lemma_messages_of_log_none(lm, i as int + 1);
                    }
                    return Err(e);
                },
            }
        }
        i += 1;
    }
    proof {
        assert(lm.take(lm.len() as int) =~= lm);
    }
    Ok(ms)
}

/// Once a prefix of the log is rejected, the whole log is rejected.
proof fn lemma_messages_of_log_none(lines: Seq<Seq<char>>, k: int)
    requires
        0 <= k <= lines.len(),
        messages_of_log(lines.take(k)) is None,
    ensures
        messages_of_log(lines) is None,
    decreases lines.len() - k,
{
    if k < lines.len() {
        let t1 = lines.take(k + 1);
        assert(t1.drop_last() =~= lines.take(k));
        assert(messages_of_log(t1.drop_last()) == messages_of_log(lines.take(k)));
        assert(messages_of_log(lines.take(k + 1)) is None);
        lemma_messages_of_log_none(lines, k + 1);
    } else {
        assert(lines.take(k) =~= lines);
    }
}

} // verus!

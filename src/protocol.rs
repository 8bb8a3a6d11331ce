//! The request/reply vocabulary exchanged between clients and the broker.
use vstd::prelude::*;
use vstd::string::StringExecFns;

verus! {

pub type Topic = String;

pub type SequenceNum = u128;

pub type UpdateContent = String;

/// Where a socket binds or connects.
pub struct SocketAddress {
    pub ip: String,
    pub port: u16,
}

/// A request, or the reply to one.
#[derive(Debug)]
pub enum Message {
    GET { ip: String, topic: Topic, sequence_num: SequenceNum },
    PUT { ip: String, topic: Topic, sequence_num: SequenceNum, payload: UpdateContent },
    SUB { ip: String, topic: Topic },
    UNSUB { ip: String, topic: Topic },
    /// One sequence number per topic, replayed by a client after a restart.
    UP { ip: String, sequence_nums: Vec<(Topic, SequenceNum)> },
    REP { result: Result<ReplyOption, ServiceError> },
    /// A request that could not be decoded.
    NOMSG,
}

/// What a successful request hands back.
#[derive(Debug)]
pub enum ReplyOption {
    /// Acknowledgment without content (SUB, UNSUB, PUT, UP).
    NoOk,
    /// A delivery (GET): the next content, if any, and the echoed sequence number.
    TUP((Option<UpdateContent>, SequenceNum)),
}

/// Why a request failed.
#[derive(Debug)]
pub enum ServiceError {
    /// The request named a topic that does not exist.
    NOTOPIC(Topic),
    /// The requester is not subscribed to the topic.
    NOSUB(Topic),
    /// The requester is already subscribed to the topic.
    ALREASUB(Topic),
    /// The request could not be read.
    UNKNOMSG,
}

/// The optional content of a delivery, seen as characters.
pub open spec fn content_view(c: Option<String>) -> Option<Seq<char>> {
    match c {
        Some(s) => Some(s@),
        None => None,
    }
}

/// A reply seen through views: `None` for an acknowledgment without content,
/// `Some((content, seq))` for a delivery.
pub open spec fn reply_view(r: Result<ReplyOption, ServiceError>) -> Result<
    Option<(Option<Seq<char>>, u128)>,
    ServiceError,
> {
    match r {
        Ok(ReplyOption::NoOk) => Ok(None),
        Ok(ReplyOption::TUP((c, s))) => Ok(Some((content_view(c), s))),
        Err(e) => Err(e),
    }
}

impl ServiceError {
    /// The human-readable text of an error.
    pub open spec fn text(&self) -> Seq<char> {
        match self {
            ServiceError::NOTOPIC(t) => "error: topic "@ + t@ + " doesn't exist"@,
            ServiceError::NOSUB(t) => "error: not subscribed to topic "@ + t@,
            ServiceError::ALREASUB(t) => "error: already subscribed to topic "@ + t@,
            ServiceError::UNKNOMSG => "error: unknown request"@,
        }
    }

    pub fn to_string(&self) -> (r: String)
        ensures
            r@ == self.text(),
    {
        match self {
            ServiceError::NOTOPIC(t) => {
                let mut s = String::from_str("error: topic ");
                s.append(t.as_str());
                s.append(" doesn't exist");
                s
            },
            ServiceError::NOSUB(t) => {
                let mut s = String::from_str("error: not subscribed to topic ");
                s.append(t.as_str());
                s
            },
            ServiceError::ALREASUB(t) => {
                let mut s = String::from_str("error: already subscribed to topic ");
                s.append(t.as_str());
                s
            },
            ServiceError::UNKNOMSG => String::from_str("error: unknown request"),
        }
    }
}

} // verus!

//! Parsing decoded [`Frame`]s into typed [`Command`]s.

use vstd::prelude::*;
use vstd::utf8::encode_utf8;

use crate::error::Error;
use crate::protocol::describe::{frame_debug, push_frame_debug};
use crate::protocol::resp::{frame_view, frames_view, lemma_frames_view_index, Frame, FrameView};
use crate::text::{ascii_upper, ascii_uppercase, lossy_string, string_to_bytes, utf8_lossy};

verus! {

/// A client request understood by ferrium.
#[derive(Debug, Clone, PartialEq, Eq)]
pub enum Command {
    Ping(Option<Vec<u8>>),
    Get { key: String },
    SetKey { key: String, value: Vec<u8> },
    Del { keys: Vec<String> },
    ClusterStatus,
    ClusterMembers,
    /// `COMMAND [DOCS]` — emitted by `redis-cli` on connect; we answer with an
    /// empty array so the CLI is happy.
    Command,
}

/// The value of a [`Command`].
pub enum CommandView {
    Ping(Option<Seq<u8>>),
    Get(Seq<char>),
    SetKey(Seq<char>, Seq<u8>),
    Del(Seq<Seq<char>>),
    ClusterStatus,
    ClusterMembers,
    Command,
}

/// The texts of a list of strings.
pub open spec fn strings_view(s: Seq<String>) -> Seq<Seq<char>> {
    Seq::new(s.len(), |i: int| s[i]@)
}

impl View for Command {
    type V = CommandView;

    open spec fn view(&self) -> CommandView {
        match self {
            Command::Ping(None) => CommandView::Ping(None),
            Command::Ping(Some(b)) => CommandView::Ping(Some(b@)),
            Command::Get { key } => CommandView::Get(key@),
            Command::SetKey { key, value } => CommandView::SetKey(key@, value@),
            Command::Del { keys } => CommandView::Del(strings_view(keys@)),
            Command::ClusterStatus => CommandView::ClusterStatus,
            Command::ClusterMembers => CommandView::ClusterMembers,
            Command::Command => CommandView::Command,
        }
    }
}

/// What a request frame is taken for: a command, or the error that rejects
/// it.
pub enum Request {
    Command(CommandView),
    /// `Error::Protocol`, with its message.
    Protocol(Seq<char>),
    /// `Error::WrongArity`, with the command's name.
    WrongArity(Seq<char>),
    /// `Error::UnknownCommand`, with the name as given.
    Unknown(Seq<char>),
}

/// Whether a result is what the request is taken for.
pub open spec fn answers(res: Result<Command, Error>, r: Request) -> bool {
    match r {
        Request::Command(c) => res matches Ok(x) && x@ == c,
        Request::Protocol(m) => res matches Err(Error::Protocol(x)) && x@ == m,
        Request::WrongArity(m) => res matches Err(Error::WrongArity(x)) && x@ == m,
        Request::Unknown(m) => res matches Err(Error::UnknownCommand(x)) && x@ == m,
    }
}

/// The bytes a frame stands for as an argument: a bulk string's payload, or
/// a simple string's UTF-8.
pub open spec fn arg_bytes(f: FrameView) -> Option<Seq<u8>> {
    match f {
        FrameView::Bulk(b) => Some(b),
        FrameView::Simple(s) => Some(encode_utf8(s)),
        _ => None,
    }
}

/// The message for an argument that is not a string.
pub open spec fn not_bulk_message(f: FrameView) -> Seq<char> {
    "expected bulk string, got "@ + frame_debug(f)
}

/// The first argument, from `start` on, that is not a string.
pub open spec fn first_non_string(items: Seq<FrameView>, start: int) -> Option<int>
    decreases items.len() - start,
{
    if start < 0 || start >= items.len() {
        None
    } else if arg_bytes(items[start]) is None {
        Some(start)
    } else {
        first_non_string(items, start + 1)
    }
}

/// The argument bytes of the frames from `start` on.
pub open spec fn args_from(items: Seq<FrameView>, start: int) -> Seq<Seq<u8>> {
    Seq::new((items.len() - start) as nat, |i: int| arg_bytes(items[start + i]).unwrap())
}

/// Keys are the arguments read as text, invalid UTF-8 replaced.
pub open spec fn keys_of(args: Seq<Seq<u8>>) -> Seq<Seq<char>> {
    Seq::new(args.len(), |i: int| utf8_lossy(args[i]))
}

/// The `CLUSTER` subcommand, upper-cased (empty when there is none).
pub open spec fn cluster_sub(args: Seq<Seq<u8>>) -> Seq<char> {
    if args.len() > 0 {
        ascii_upper(utf8_lossy(args[0]))
    } else {
        Seq::empty()
    }
}

/// A command from its upper-cased name and its arguments.
pub open spec fn assembled(name: Seq<char>, args: Seq<Seq<u8>>) -> Request {
    if name == "PING"@ {
        if args.len() == 0 {
            Request::Command(CommandView::Ping(None))
        } else if args.len() == 1 {
            Request::Command(CommandView::Ping(Some(args[0])))
        } else {
            Request::WrongArity("ping"@)
        }
    } else if name == "GET"@ {
        if args.len() == 1 {
            Request::Command(CommandView::Get(utf8_lossy(args[0])))
        } else {
            Request::WrongArity("get"@)
        }
    } else if name == "SET"@ {
        if args.len() == 2 {
            Request::Command(CommandView::SetKey(utf8_lossy(args[0]), args[1]))
        } else {
            Request::WrongArity("set"@)
        }
    } else if name == "DEL"@ {
        if args.len() == 0 {
            Request::WrongArity("del"@)
        } else {
            Request::Command(CommandView::Del(keys_of(args)))
        }
    } else if name == "CLUSTER"@ {
        let sub = cluster_sub(args);
        if sub == "STATUS"@ || sub == "INFO"@ {
            Request::Command(CommandView::ClusterStatus)
        } else if sub == "MEMBERS"@ || sub == "NODES"@ {
            Request::Command(CommandView::ClusterMembers)
        } else {
            Request::Unknown("CLUSTER "@ + sub)
        }
    } else if name == "COMMAND"@ {
        Request::Command(CommandView::Command)
    } else {
        Request::Unknown(name)
    }
}

/// What a request frame asks for: a non-empty array of strings, whose first
/// item names the command (case-insensitively) and whose others are its
/// arguments.
pub open spec fn request_of(f: FrameView) -> Request {
    match f {
        FrameView::Array(items) => if items.len() == 0 {
            Request::Protocol("expected non-empty array"@)
        } else {
            match first_non_string(items, 0) {
                Some(i) => Request::Protocol(not_bulk_message(items[i])),
                None => assembled(
                    ascii_upper(utf8_lossy(arg_bytes(items[0]).unwrap())),
                    args_from(items, 1),
                ),
            }
        },
        _ => Request::Protocol("expected non-empty array"@),
    }
}

/// Whether a command mutates state and therefore must go through Raft.
pub open spec fn is_write_view(c: CommandView) -> bool {
    c is SetKey || c is Del
}

/// The bytes of a string-like frame.
fn bulk_to_bytes(frame: &Frame) -> (res: Result<Vec<u8>, Error>)
    ensures
        match arg_bytes(frame@) {
            Some(b) => res matches Ok(v) && v@ == b,
            None => res matches Err(Error::Protocol(m)) && m@ == not_bulk_message(frame@),
        },
{
    match frame {
        Frame::Bulk(b) => Ok(b.clone()),
        Frame::Simple(s) => Ok(string_to_bytes(s)),
        other => {
            let mut msg = String::from_str("expected bulk string, got ");
            push_frame_debug(&mut msg, other);
            Err(Error::Protocol(msg))
        },
    }
}

/// The text of argument bytes, invalid UTF-8 replaced.
fn to_string(b: &Vec<u8>) -> (res: String)
    ensures
        res@ == utf8_lossy(b@),
{
    lossy_string(b.as_slice())
}

/// Whether a string reads as `word`.
fn reads_as(s: &String, word: &str) -> (res: bool)
    ensures
        res == (s@ == word@),
{
    let w = String::from_str(word);
    *s == w
}

impl Command {
    /// Parse a request frame (always a RESP array of bulk strings) into a
    /// [`Command`].
    pub fn from_frame(frame: Frame) -> (res: Result<Command, Error>)
        ensures
            answers(res, request_of(frame@)),
    {
        let ghost f = frame@;
        let items = match frame {
            Frame::Array(items) => items,
            _ => return Err(Error::Protocol(String::from_str("expected non-empty array"))),
        };
        if items.len() == 0 {
            return Err(Error::Protocol(String::from_str("expected non-empty array")));
        }
        let ghost views = frames_view(items@);
        proof {
            lemma_frames_view_index(items@);
            assert(f == FrameView::Array(views));
        }
        let first = match bulk_to_bytes(&items[0]) {
            Ok(b) => b,
            Err(e) => return Err(e),
        };
        let raw = to_string(&first);
        let name = ascii_uppercase(raw.as_str());
        let mut rest: Vec<Vec<u8>> = Vec::new();
        let mut i: usize = 1;
        while i < items.len()
            invariant
                1 <= i <= items@.len(),
                views == frames_view(items@),
                views.len() == items@.len(),
                forall|j: int| 0 <= j < items@.len() ==> #[trigger] views[j] == frame_view(items@[j]),
                f == FrameView::Array(views),
                f == frame@,
                arg_bytes(views[0]) is Some,
                forall|j: int| 0 <= j < i ==> #[trigger] arg_bytes(views[j]) is Some,
                first_non_string(views, 0) == first_non_string(views, i as int),
                rest@.len() == i - 1,
                forall|j: int| 0 <= j < i - 1 ==> #[trigger] rest@[j]@ == arg_bytes(views[1 + j]).unwrap(),
            decreases items.len() - i,
        {
            match bulk_to_bytes(&items[i]) {
                Ok(b) => {
                    rest.push(b);
                },
                Err(e) => {
                    assert(arg_bytes(views[i as int]) is None);
                    assert(first_non_string(views, i as int) == Some(i as int));
                    assert(views.len() > 0);
                    return Err(e);
                },
            }
            i = i + 1;
        }
        proof {
            assert(first_non_string(views, items@.len() as int) is None);
            assert(first_non_string(views, 0) is None);
            assert(Seq::new(rest@.len(), |j: int| rest@[j]@) =~= args_from(views, 1));
        }
        Self::assemble(&name, rest)
    }

    /// The command a name and its arguments make.
    fn assemble(name: &String, args: Vec<Vec<u8>>) -> (res: Result<Command, Error>)
        ensures
            answers(res, assembled(name@, Seq::new(args@.len(), |i: int| args@[i]@))),
    {
        let ghost a = Seq::new(args@.len(), |i: int| args@[i]@);
        let mut args = args;
        if reads_as(name, "PING") {
            if args.len() == 0 {
                Ok(Command::Ping(None))
            } else if args.len() == 1 {
                let payload = args.pop().unwrap();
                Ok(Command::Ping(Some(payload)))
            } else {
                Err(Error::WrongArity(String::from_str("ping")))
            }
        } else if reads_as(name, "GET") {
            if args.len() == 1 {
                Ok(Command::Get { key: to_string(&args[0]) })
            } else {
                Err(Error::WrongArity(String::from_str("get")))
            }
        } else if reads_as(name, "SET") {
            if args.len() == 2 {
                let value = args.pop().unwrap();
                let key = to_string(&args[0]);
                Ok(Command::SetKey { key, value })
            } else {
                Err(Error::WrongArity(String::from_str("set")))
            }
        } else if reads_as(name, "DEL") {
            if args.len() == 0 {
                return Err(Error::WrongArity(String::from_str("del")));
            }
            let mut keys: Vec<String> = Vec::new();
            let mut i: usize = 0;
            while i < args.len()
                invariant
                    i <= args@.len(),
                    a == Seq::new(args@.len(), |k: int| args@[k]@),
                    keys@.len() == i,
                    forall|k: int| 0 <= k < i ==> #[trigger] keys@[k]@ == utf8_lossy(a[k]),
                decreases args.len() - i,
            {
                keys.push(to_string(&args[i]));
                i = i + 1;
            }
            assert(strings_view(keys@) =~= keys_of(a));
            Ok(Command::Del { keys })
        } else if reads_as(name, "CLUSTER") {
            let sub = if args.len() > 0 {
                let raw = to_string(&args[0]);
                ascii_uppercase(raw.as_str())
            } else {
                String::new()
            };
            assert(sub@ == cluster_sub(a));
            if reads_as(&sub, "STATUS") || reads_as(&sub, "INFO") {
                Ok(Command::ClusterStatus)
            } else if reads_as(&sub, "MEMBERS") || reads_as(&sub, "NODES") {
                Ok(Command::ClusterMembers)
            } else {
                let mut msg = String::from_str("CLUSTER ");
                msg.append(sub.as_str());
                Err(Error::UnknownCommand(msg))
            }
        } else if reads_as(name, "COMMAND") {
            Ok(Command::Command)
        } else {
            Err(Error::UnknownCommand(name.clone()))
        }
    }

    /// Whether this command mutates state and therefore must go through Raft.
    pub fn is_write(&self) -> (res: bool)
        ensures
            res == is_write_view(self@),
    {
        match self {
            Command::SetKey { .. } | Command::Del { .. } => true,
            _ => false,
        }
    }
}

} // verus!

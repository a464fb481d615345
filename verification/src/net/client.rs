//! How client requests are answered.
//!
//! Reads are served straight from the store, writes go through Raft and are
//! answered once committed. The runtime does the reading, proposing and
//! waiting; these functions say which of them a command needs and build the
//! reply frame from what came back.

use vstd::prelude::*;
use vstd::utf8::encode_utf8;

use crate::apply::{WriteCommand, WriteView};
use crate::decimal::{append_decimal, decimal};
use crate::error::Error;
use crate::protocol::command::{strings_view, Command, CommandView};
use crate::protocol::resp::{frames_view, Frame, FrameView};
use crate::raft::message::opt_id_view;
use crate::server::{ClusterStatus, ProposeOutcome};
use crate::text::{ascii_chars, string_to_bytes};

verus! {

/// The kind of a write, which decides its reply.
#[derive(Debug, Clone, Copy, PartialEq, Eq, Structural)]
pub enum WriteKind {
    SetKey,
    Del,
}

/// What answering a command takes.
pub enum Route {
    /// Answer with this frame at once.
    Reply(Frame),
    /// Read this key from the store (counted as a get).
    Get(String),
    /// Replicate this write and answer once it commits (counted by kind).
    Write(WriteCommand, WriteKind),
    /// Ask the driver for the cluster status.
    Status,
    /// List the cluster members.
    Members,
}

/// What [`route`] gives for a command.
pub enum RouteView {
    Reply(FrameView),
    Get(Seq<char>),
    Write(WriteView, WriteKind),
    Status,
    Members,
}

impl View for Route {
    type V = RouteView;

    open spec fn view(&self) -> RouteView {
        match self {
            Route::Reply(f) => RouteView::Reply(f@),
            Route::Get(k) => RouteView::Get(k@),
            Route::Write(c, k) => RouteView::Write(c@, *k),
            Route::Status => RouteView::Status,
            Route::Members => RouteView::Members,
        }
    }
}

/// How each command is answered: `PING` echoes its payload (or `PONG`),
/// `COMMAND` gets an empty array, `GET` reads, `SET` and `DEL` replicate,
/// and the `CLUSTER` commands ask the driver or list the members.
pub open spec fn route_of(c: CommandView) -> RouteView {
    match c {
        CommandView::Ping(Some(payload)) => RouteView::Reply(FrameView::Bulk(payload)),
        CommandView::Ping(None) => RouteView::Reply(FrameView::Simple("PONG"@)),
        CommandView::Get(key) => RouteView::Get(key),
        CommandView::SetKey(key, value) => RouteView::Write(WriteView::SetKey(key, value), WriteKind::SetKey),
        CommandView::Del(keys) => RouteView::Write(WriteView::Del(keys), WriteKind::Del),
        CommandView::ClusterStatus => RouteView::Status,
        CommandView::ClusterMembers => RouteView::Members,
        CommandView::Command => RouteView::Reply(FrameView::Array(Seq::empty())),
    }
}

/// What answering a command takes.
pub fn route(command: Command) -> (res: Route)
    ensures
        res@ == route_of(command@),
{
    match command {
        Command::Ping(Some(payload)) => Route::Reply(Frame::Bulk(payload)),
        Command::Ping(None) => Route::Reply(Frame::Simple(String::from_str("PONG"))),
        Command::Get { key } => Route::Get(key),
        Command::SetKey { key, value } => Route::Write(WriteCommand::SetKey { key, value }, WriteKind::SetKey),
        Command::Del { keys } => {
            let c = WriteCommand::Del { keys };
            Route::Write(c, WriteKind::Del)
        },
        Command::ClusterStatus => Route::Status,
        Command::ClusterMembers => Route::Members,
        Command::Command => {
            let res = Route::Reply(Frame::Array(Vec::new()));
            assert(frames_view(Seq::<Frame>::empty()) =~= Seq::<FrameView>::empty());
            res
        },
    }
}

/// The reply to a read: the value, or null when the key is absent.
pub fn read_reply(value: Option<Vec<u8>>) -> (res: Frame)
    ensures
        res@ == match value {
            Some(v) => FrameView::Bulk(v@),
            None => FrameView::Null,
        },
{
    match value {
        Some(v) => Frame::Bulk(v),
        None => Frame::Null,
    }
}

/// The error line for a client: `ERR` and the error's client message.
pub open spec fn error_line(message: Seq<char>) -> Seq<char> {
    "ERR "@ + message
}

/// The reply to a write routed to a node that is not the leader.
pub fn not_leader_frame(leader: Option<String>) -> (res: Frame)
    ensures
        res@ == FrameView::Error(error_line(Error::NotLeader(leader).client_text())),
{
    let e = Error::NotLeader(leader);
    let mut line = String::from_str("ERR ");
    let m = e.client_message();
    line.append(m.as_str());
    Frame::Error(line)
}

/// The reply to a request that could not be taken as a command.
pub fn error_reply(e: &Error) -> (res: Frame)
    ensures
        !(e is Io) ==> res@ == FrameView::Error(error_line(e.client_text())),
        e is Io ==> (res@ matches FrameView::Error(line) && "ERR io error: "@.is_prefix_of(line)),
{
    let mut line = String::from_str("ERR ");
    let m = e.client_message();
    line.append(m.as_str());
    proof {
        if e is Io {
            reveal_strlit("ERR ");
            reveal_strlit("io error: ");
            reveal_strlit("ERR io error: ");
            let p = "ERR io error: "@;
            assert forall|i: int| 0 <= i < p.len() implies #[trigger] line@.subrange(0, p.len() as int)[i] == p[i] by {
                if i >= 4 {
                    assert(line@[i] == m@[i - 4]);
                    assert(m@.subrange(0, "io error: "@.len() as int)[i - 4] == "io error: "@[i - 4]);
                }
            }
            assert(line@.subrange(0, p.len() as int) =~= p);
        }
    }
    Frame::Error(line)
}

/// The reply to a write: `OK` for a set, `1` for a delete once committed
/// (the count of deleted keys is not threaded back), a redirect otherwise.
pub open spec fn write_reply_of(kind: WriteKind, outcome: ProposeOutcome) -> FrameView {
    match outcome {
        ProposeOutcome::Committed => match kind {
            WriteKind::SetKey => FrameView::Simple("OK"@),
            WriteKind::Del => FrameView::Integer(1),
        },
        ProposeOutcome::NotLeader(leader) => FrameView::Error(
            error_line(Error::NotLeader(leader).client_text()),
        ),
    }
}

/// The reply to a write, from how its proposal ended.
pub fn write_reply(kind: WriteKind, outcome: ProposeOutcome) -> (res: Frame)
    ensures
        res@ == write_reply_of(kind, outcome),
{
    match outcome {
        ProposeOutcome::Committed => match kind {
            WriteKind::SetKey => Frame::Simple(String::from_str("OK")),
            WriteKind::Del => Frame::Integer(1),
        },
        ProposeOutcome::NotLeader(leader) => not_leader_frame(leader),
    }
}

/// The status line: `id=.. role=.. term=.. leader=.. commit=.. size=..`,
/// with `none` for an unknown leader.
pub open spec fn status_text(
    id: Seq<char>,
    role: Seq<char>,
    term: u64,
    leader: Option<Seq<char>>,
    commit_index: u64,
    cluster_size: usize,
) -> Seq<char> {
    "id="@ + id + " role="@ + role + " term="@ + ascii_chars(decimal(term as nat)) + " leader="@ + match leader {
        Some(l) => l,
        None => "none"@,
    } + " commit="@ + ascii_chars(decimal(commit_index as nat)) + " size="@ + ascii_chars(
        decimal(cluster_size as nat),
    )
}

/// The reply to `CLUSTER STATUS`: the status line, or an error when the
/// driver did not answer.
pub fn status_reply(status: Option<ClusterStatus>) -> (res: Frame)
    ensures
        res@ == match status {
            Some(s) => FrameView::Bulk(
                encode_utf8(
                    status_text(s.id@, s.role@, s.term, opt_id_view(s.leader), s.commit_index, s.cluster_size),
                ),
            ),
            None => FrameView::Error("ERR driver unavailable"@),
        },
{
    match status {
        Some(s) => {
            let mut text = String::from_str("id=");
            text.append(s.id.as_str());
            text.append(" role=");
            text.append(s.role);
            text.append(" term=");
            append_decimal(&mut text, s.term);
            text.append(" leader=");
            match &s.leader {
                Some(l) => text.append(l.as_str()),
                None => text.append("none"),
            }
            text.append(" commit=");
            append_decimal(&mut text, s.commit_index);
            text.append(" size=");
            append_decimal(&mut text, s.cluster_size as u64);
            assert(text@ =~= status_text(
                s.id@,
                s.role@,
                s.term,
                opt_id_view(s.leader),
                s.commit_index,
                s.cluster_size,
            ));
            Frame::Bulk(string_to_bytes(&text))
        },
        None => Frame::Error(String::from_str("ERR driver unavailable")),
    }
}

/// A member as listed: `id@address`.
pub open spec fn member_text(id: Seq<char>, addr: Seq<char>) -> Seq<char> {
    id + "@"@ + addr
}

/// The reply to `CLUSTER MEMBERS`: one bulk string per member, in order.
pub fn members_reply(members: &Vec<(String, String)>) -> (res: Frame)
    ensures
        res@ == FrameView::Array(
            Seq::new(
                members@.len(),
                |i: int| FrameView::Bulk(encode_utf8(member_text(members@[i].0@, members@[i].1@))),
            ),
        ),
{
    let ghost want = Seq::new(
        members@.len(),
        |i: int| FrameView::Bulk(encode_utf8(member_text(members@[i].0@, members@[i].1@))),
    );
    let mut items: Vec<Frame> = Vec::new();
    let mut i: usize = 0;
    while i < members.len()
        invariant
            i <= members@.len(),
            want == Seq::new(
                members@.len(),
                |j: int| FrameView::Bulk(encode_utf8(member_text(members@[j].0@, members@[j].1@))),
            ),
            frames_view(items@) == want.take(i as int),
        decreases members.len() - i,
    {
        let mut text = members[i].0.clone();
        text.append("@");
        text.append(members[i].1.as_str());
        let item = Frame::Bulk(string_to_bytes(&text));
        proof {
            crate::protocol::resp::lemma_frames_view_push(items@, item);
            assert(want.take(i + 1) =~= want.take(i as int).push(want[i as int]));
        }
        items.push(item);
        i = i + 1;
    }
    proof {
        assert(want.take(members@.len() as int) =~= want);
    }
    Frame::Array(items)
}

/// Routing a command keeps what it asks for: a write is replicated with the
/// kind of that very write, so a committed `SET` is answered `+OK` and a
/// committed `DEL` `:1`; only `SET` and `DEL` are written; a `GET` reads
/// the key it names; a `PING` with a payload echoes it; only the `CLUSTER`
/// commands ask the driver or list the members.
pub proof fn lemma_route_keeps_the_command(c: CommandView)
    ensures
        route_of(c) matches RouteView::Write(w, kind) ==> (kind == WriteKind::SetKey <==> w is SetKey) && (kind
            == WriteKind::Del <==> w is Del),
        route_of(c) is Write ==> c is SetKey || c is Del,
        c matches CommandView::SetKey(k, v) ==> (route_of(c) matches RouteView::Write(w, kind) && w
            == WriteView::SetKey(k, v) && write_reply_of(kind, ProposeOutcome::Committed) == FrameView::Simple(
            "OK"@,
        )),
        c matches CommandView::Del(keys) ==> (route_of(c) matches RouteView::Write(w, kind) && w == WriteView::Del(
            keys,
        ) && write_reply_of(kind, ProposeOutcome::Committed) == FrameView::Integer(1)),
        c matches CommandView::Get(k) ==> route_of(c) == RouteView::Get(k),
        c matches CommandView::Ping(Some(payload)) ==> route_of(c) == RouteView::Reply(FrameView::Bulk(payload)),
        c is ClusterStatus <==> route_of(c) is Status,
        c is ClusterMembers <==> route_of(c) is Members,
{
}

/// The `leader=` field of the status line is the id of the leader the
/// status names, and `none` when it names none; everything around it is
/// the same either way.
pub proof fn lemma_status_names_the_leader(
    id: Seq<char>,
    role: Seq<char>,
    term: u64,
    leader: Seq<char>,
    commit_index: u64,
    cluster_size: usize,
)
    ensures
        exists|p: Seq<char>, q: Seq<char>|
            {
                &&& status_text(id, role, term, Some(leader), commit_index, cluster_size) == p + " leader="@ + leader
                    + " commit="@ + q
                &&& status_text(id, role, term, None, commit_index, cluster_size) == p + " leader="@ + "none"@
                    + " commit="@ + q
            },
{
    let p = "id="@ + id + " role="@ + role + " term="@ + ascii_chars(decimal(term as nat));
    let q = ascii_chars(decimal(commit_index as nat)) + " size="@ + ascii_chars(decimal(cluster_size as nat));
    assert(status_text(id, role, term, Some(leader), commit_index, cluster_size) =~= p + " leader="@ + leader
        + " commit="@ + q);
    assert(status_text(id, role, term, None, commit_index, cluster_size) =~= p + " leader="@ + "none"@
        + " commit="@ + q);
}

} // verus!

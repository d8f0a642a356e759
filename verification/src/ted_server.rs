//! The server: the packets of the protocol, and the linearizer that orders
//! the operations of all clients into one timeline.

use crate::buffer_operator::BufferOperator;
use crate::operation::{lemma_apply_valid, Operation};
use std::collections::HashMap;
use vstd::prelude::*;
use vstd::std_specs::hash::*;
use vstd::std_specs::iter::IteratorSpec;
use vstd::string::*;
use vstd::utf8::*;

verus! {

/// What a client sends: an operation or a command, each with the length of
/// the timeline that the client knew when it sent it.
#[derive(Debug, PartialEq, Eq)]
pub enum Request {
    /// `Op(client_version, op)`
    Op(u64, Operation),
    /// `Command(client_version, command)`
    Command(u64, String),
}

/// The server's answer to a request.
#[derive(Copy, Clone, Debug, PartialEq, Eq, Structural)]
pub enum Response {
    /// The oldest pending operation of the client has entered the timeline.
    Op,
}

/// The tag that starts every packet from the server behind the first.
#[derive(Copy, Clone, Debug, PartialEq, Eq, Structural)]
pub enum PacketId {
    Response,
    Sync,
}

/// A packet from the server behind the first.
#[derive(Debug, PartialEq, Eq)]
pub enum Packet {
    /// An answer to a request of the client.
    Response(Response),
    /// Operations of the timeline that the client has not seen.
    Sync(Vec<Operation>),
}

impl Packet {
    /// The tag of the packet.
    pub fn id(&self) -> (id: PacketId)
        ensures
            id == (match *self {
                Packet::Response(_) => PacketId::Response,
                Packet::Sync(_) => PacketId::Sync,
            }),
    {
        match self {
            Packet::Response(_) => PacketId::Response,
            Packet::Sync(_) => PacketId::Sync,
        }
    }
}

/// A packet and the client that it goes to.
#[derive(Debug, PartialEq, Eq)]
pub struct Outgoing {
    pub client_id: u32,
    pub packet: Packet,
}

/// The first packet that a client gets: the text and the timeline.
#[derive(Debug, PartialEq, Eq)]
pub struct Snapshot {
    pub buffer: String,
    pub timeline: Vec<(u32, Operation)>,
}

/// What the server keeps of each client.
pub struct ClientData {
    /// Length of the timeline up to which the client has been informed.
    pub version: u64,
}

impl ClientData {
    /// The data of a client that has been informed up to `version`.
    pub fn new(version: u64) -> (data: ClientData)
        ensures
            data.version == version,
    {
        ClientData { version }
    }
}

/// The server: the text, the timeline of all operations that made it, and
/// the clients.
pub struct TedServer {
    buf_op: BufferOperator,
    timeline: Vec<(u32, Operation)>,
    client_data: HashMap<u32, ClientData>,
    base: Ghost<Seq<u8>>,
}

/// The server as a mathematical value.
#[verifier::ext_equal]
pub struct ServerView {
    /// The bytes of the text.
    pub text: Seq<u8>,
    /// The operations in the order in which they were accepted, each with
    /// the client that made it.
    pub timeline: Seq<(u32, Operation)>,
    /// For each client, the length of the timeline up to which it has been
    /// informed.
    pub versions: Map<u32, u64>,
    /// The text with which the server started.
    pub base: Seq<u8>,
}

/// The operations of a timeline without the clients that made them.
pub open spec fn timeline_ops(timeline: Seq<(u32, Operation)>) -> Seq<Operation> {
    Seq::new(timeline.len(), |i: int| timeline[i].1)
}

/// The text that the operations `ops`, applied in order, make of `base`;
/// `None` if one of them is not legal on the text it meets.
pub open spec fn replay(base: Seq<u8>, ops: Seq<Operation>) -> Option<Seq<u8>>
    decreases ops.len(),
{
    if ops.len() == 0 {
        Some(base)
    } else {
        match replay(base, ops.drop_last()) {
            Some(b) => if ops.last().legal(b) {
                Some(ops.last().apply(b))
            } else {
                None
            },
            None => None,
        }
    }
}

/// `op`, made by `client_id`, rewritten to follow in turn every operation
/// of `timeline` that another client made; `None` if it does not survive
/// one of them.
pub open spec fn carried_through(
    op: Operation,
    timeline: Seq<(u32, Operation)>,
    client_id: u32,
) -> Option<Operation>
    decreases timeline.len(),
{
    if timeline.len() == 0 {
        Some(op)
    } else if timeline[0].0 == client_id {
        carried_through(op, timeline.drop_first(), client_id)
    } else {
        match timeline[0].1.carry_over(op) {
            Some(next) => carried_through(next, timeline.drop_first(), client_id),
            None => None,
        }
    }
}

/// `out` is a sync packet for `client_id` that carries `ops`.
pub open spec fn is_sync(out: Outgoing, client_id: u32, ops: Seq<Operation>) -> bool {
    &&& out.client_id == client_id
    &&& out.packet matches Packet::Sync(sent)
    &&& sent@ == ops
}

/// `out` acknowledges an operation of `client_id`.
pub open spec fn is_ack(out: Outgoing, client_id: u32) -> bool {
    &&& out.client_id == client_id
    &&& out.packet == Packet::Response(Response::Op)
}

impl ServerView {
    /// The text is what the timeline makes of the text that the server
    /// started with, and no client has been informed beyond the end of the
    /// timeline.
    pub open spec fn wf(self) -> bool {
        &&& replay(self.base, timeline_ops(self.timeline)) == Some(self.text)
        &&& self.versions.dom().finite()
        &&& forall|c: u32| #[trigger]
            self.versions.contains_key(c) ==> self.versions[c] <= self.timeline.len()
    }

    /// The part of the timeline that a client informed up to `version` has
    /// not seen, without the clients that made the operations.
    pub open spec fn unseen(self, version: int) -> Seq<Operation> {
        timeline_ops(self.timeline).skip(version)
    }

    /// `client_id` is owed a sync packet.
    pub open spec fn behind(self, client_id: u32) -> bool {
        self.versions.contains_key(client_id) && self.versions[client_id] < self.timeline.len()
    }

    /// The server after `client_id` has joined: it counts as informed of
    /// the whole timeline.
    pub open spec fn join(self, client_id: u32) -> ServerView {
        ServerView { versions: self.versions.insert(client_id, self.timeline.len() as u64), ..self }
    }

    /// The server after `client_id` has left.
    pub open spec fn disconnect(self, client_id: u32) -> ServerView {
        ServerView { versions: self.versions.remove(client_id), ..self }
    }

    /// The server after `client_id`, if it is a client, has been informed
    /// of the whole timeline.
    pub open spec fn sync(self, client_id: u32) -> ServerView {
        if self.versions.contains_key(client_id) {
            ServerView {
                versions: self.versions.insert(client_id, self.timeline.len() as u64),
                ..self
            }
        } else {
            self
        }
    }

    /// The server after every client but `exclude` has been informed of the
    /// whole timeline.
    pub open spec fn sync_all(self, exclude: Option<u32>) -> ServerView {
        ServerView {
            versions: Map::new(
                |c: u32| self.versions.contains_key(c),
                |c: u32|
                    if exclude == Some(c) {
                        self.versions[c]
                    } else {
                        self.timeline.len() as u64
                    },
            ),
            ..self
        }
    }

    /// The operation as which `op`, sent by `client_id` at version
    /// `client_version`, enters the timeline, if it does: the client is
    /// known, the version lies in the timeline, the operation survives
    /// being rewritten to follow what other clients have done since that
    /// version, and it is legal on the text then.
    pub open spec fn accept(self, client_id: u32, client_version: u64, op: Operation) -> Option<
        Operation,
    > {
        if self.versions.contains_key(client_id) && client_version <= self.timeline.len() {
            match carried_through(op, self.timeline.skip(client_version as int), client_id) {
                Some(carried) => if carried.legal(self.text) {
                    Some(carried)
                } else {
                    None
                },
                None => None,
            }
        } else {
            None
        }
    }

    /// The server after the operation that a client sent has been taken in
    /// as `accepted`, before the other clients are informed: an accepted
    /// operation is executed and appended to the timeline, and the sender
    /// counts as informed of everything.
    pub open spec fn take_in(self, client_id: u32, accepted: Option<Operation>) -> ServerView {
        let taken = match accepted {
            Some(op) => ServerView {
                text: op.apply(self.text),
                timeline: self.timeline.push((client_id, op)),
                ..self
            },
            None => self,
        };
        taken.sync(client_id)
    }

    /// The server after it has processed the operation `op` that
    /// `client_id` sent at version `client_version`. An unknown client is
    /// ignored.
    pub open spec fn process(self, client_id: u32, client_version: u64, op: Operation) -> ServerView {
        if self.versions.contains_key(client_id) {
            self.take_in(client_id, self.accept(client_id, client_version, op)).sync_all(
                Some(client_id),
            )
        } else {
            self
        }
    }
}

/// Something that happens to the server.
pub enum ServerStep {
    /// A client joins.
    Join(u32),
    /// A client leaves.
    Disconnect(u32),
    /// `Process(client_id, client_version, op)`: an operation of a client
    /// arrives.
    Process(u32, u64, Operation),
}

impl ServerView {
    /// A server that starts with the text `base`.
    pub open spec fn initial(base: Seq<u8>) -> ServerView {
        ServerView { text: base, timeline: Seq::empty(), versions: Map::empty(), base }
    }

    /// The server after `step`.
    pub open spec fn step(self, step: ServerStep) -> ServerView {
        match step {
            ServerStep::Join(client_id) => self.join(client_id),
            ServerStep::Disconnect(client_id) => self.disconnect(client_id),
            ServerStep::Process(client_id, client_version, op) => self.process(
                client_id,
                client_version,
                op,
            ),
        }
    }

    /// The server after `steps`, in order.
    pub open spec fn run(self, steps: Seq<ServerStep>) -> ServerView
        decreases steps.len(),
    {
        if steps.len() == 0 {
            self
        } else {
            self.run(steps.drop_last()).step(steps.last())
        }
    }
}

/// Whatever happens to a well-formed server leaves it well formed, and
/// with the text that it started with.
pub proof fn lemma_step_keeps_wf(server: ServerView, step: ServerStep)
    requires
        server.wf(),
    ensures
        server.step(step).wf(),
        server.step(step).base == server.base,
{
    let next = server.step(step);
    match step {
        ServerStep::Join(client_id) => {},
        ServerStep::Disconnect(client_id) => {},
        ServerStep::Process(client_id, client_version, op) => {
            if server.versions.contains_key(client_id) {
                let accepted = server.accept(client_id, client_version, op);
                let taken = server.take_in(client_id, accepted);
                match accepted {
                    Some(carried) => {
                        let ops = timeline_ops(server.timeline);
                        let grown = timeline_ops(server.timeline.push((client_id, carried)));
                        assert(grown.drop_last() =~= ops);
                        assert(grown.last() == carried);
                    },
                    None => {},
                }
                assert(taken.wf());
                assert(next.versions.dom() =~= taken.versions.dom());
            }
        },
    }
}

/// Timeline determinism: whatever joins, departures and operations reach
/// a server that started with the text `base`, and in whatever order, its
/// text is what its timeline, replayed in order, makes of `base`.
pub proof fn lemma_timeline_determines_text(base: Seq<u8>, steps: Seq<ServerStep>)
    ensures
        ServerView::initial(base).run(steps).wf(),
        replay(base, timeline_ops(ServerView::initial(base).run(steps).timeline)) == Some(
            ServerView::initial(base).run(steps).text,
        ),
    decreases steps.len(),
{
    let start = ServerView::initial(base);
    if steps.len() == 0 {
        assert(timeline_ops(start.timeline) =~= Seq::<Operation>::empty());
    } else {
        lemma_timeline_determines_text(base, steps.drop_last());
        lemma_run_keeps_base(start, steps.drop_last());
        lemma_step_keeps_wf(start.run(steps.drop_last()), steps.last());
    }
}

/// The text that a server started with stays on record.
pub proof fn lemma_run_keeps_base(server: ServerView, steps: Seq<ServerStep>)
    ensures
        server.run(steps).base == server.base,
    decreases steps.len(),
{
    if steps.len() > 0 {
        lemma_run_keeps_base(server, steps.drop_last());
    }
}

/// `out` informs exactly the clients of `server` other than `exclude` that
/// are behind, each once, of what it has not seen.
pub open spec fn is_broadcast(out: Seq<Outgoing>, server: ServerView, exclude: Option<u32>) -> bool {
    &&& forall|i: int|
        0 <= i < out.len() ==> {
            &&& server.behind((#[trigger] out[i]).client_id)
            &&& exclude != Some(out[i].client_id)
            &&& is_sync(
                out[i],
                out[i].client_id,
                server.unseen(server.versions[out[i].client_id] as int),
            )
        }
    &&& forall|c: u32|
        #![trigger server.behind(c)]
        server.behind(c) && exclude != Some(c) ==> exists|i: int|
            0 <= i < out.len() && (#[trigger] out[i]).client_id == c
    &&& forall|i: int, j: int|
        0 <= i < j < out.len() ==> (#[trigger] out[i]).client_id != (#[trigger] out[j]).client_id
}

/// One of the first `n` clients of `ids` is `c`.
pub open spec fn listed(ids: Seq<u32>, n: int, c: u32) -> bool {
    exists|j: int| 0 <= j < n && #[trigger] ids[j] == c
}

/// One of the packets of `out` goes to `c`.
pub open spec fn sent_to(out: Seq<Outgoing>, c: u32) -> bool {
    exists|k: int| 0 <= k < out.len() && (#[trigger] out[k]).client_id == c
}

/// `out` is the broadcast as far as it has come when the first `n` clients
/// of `ids` have been looked at.
pub open spec fn is_broadcast_so_far(
    out: Seq<Outgoing>,
    server: ServerView,
    exclude: Option<u32>,
    ids: Seq<u32>,
    n: int,
) -> bool {
    &&& forall|i: int|
        0 <= i < out.len() ==> {
            &&& server.behind((#[trigger] out[i]).client_id)
            &&& exclude != Some(out[i].client_id)
            &&& listed(ids, n, out[i].client_id)
            &&& is_sync(
                out[i],
                out[i].client_id,
                server.unseen(server.versions[out[i].client_id] as int),
            )
        }
    &&& forall|j: int|
        0 <= j < n && server.behind(#[trigger] ids[j]) && exclude != Some(ids[j]) ==> sent_to(
            out,
            ids[j],
        )
    &&& forall|i: int, j: int|
        0 <= i < j < out.len() ==> (#[trigger] out[i]).client_id != (#[trigger] out[j]).client_id
}

/// What the server sends when it processes an operation of `client_id`:
/// first what the sender has not seen of the timeline, if anything; then
/// the acknowledgement, if the operation was accepted; then to every other
/// client that is behind, what it has not seen.
pub open spec fn is_reply(
    out: Seq<Outgoing>,
    before: ServerView,
    client_id: u32,
    accepted: Option<Operation>,
) -> bool {
    let caught_up: int = if before.behind(client_id) { 1 } else { 0 };
    let acked: int = if accepted is Some { 1 } else { 0 };
    &&& out.len() >= caught_up + acked
    &&& before.behind(client_id) ==> is_sync(
        out[0],
        client_id,
        before.unseen(before.versions[client_id] as int),
    )
    &&& accepted is Some ==> is_ack(out[caught_up], client_id)
    &&& is_broadcast(
        out.skip(caught_up + acked),
        before.take_in(client_id, accepted),
        Some(client_id),
    )
}

impl View for TedServer {
    type V = ServerView;

    closed spec fn view(&self) -> ServerView {
        ServerView {
            text: self.buf_op@,
            timeline: self.timeline@,
            versions: self.client_data@.map_values(|d: ClientData| d.version),
            base: self.base@,
        }
    }
}

impl TedServer {
    /// A server that starts with the text of `buf_op`, an empty timeline
    /// and no clients.
    pub fn new(buf_op: BufferOperator) -> (server: TedServer)
        ensures
            server@ == (ServerView {
                text: buf_op@,
                timeline: Seq::empty(),
                versions: Map::empty(),
                base: buf_op@,
            }),
            server@.wf(),
    {
        broadcast use group_hash_axioms;

        let ghost base = buf_op@;
        let server = TedServer {
            buf_op,
            timeline: Vec::new(),
            client_data: HashMap::new(),
            base: Ghost(base),
        };
        proof {
            assert(server@.versions =~= Map::<u32, u64>::empty());
            assert(timeline_ops(server@.timeline) =~= Seq::<Operation>::empty());
        }
        server
    }

    /// The text.
    pub fn buffer(&self) -> (buf_op: &BufferOperator)
        ensures
            buf_op@ == self@.text,
    {
        &self.buf_op
    }

    /// The timeline: the accepted operations in order, each with the
    /// client that made it.
    pub fn timeline(&self) -> (timeline: &Vec<(u32, Operation)>)
        ensures
            timeline@ == self@.timeline,
    {
        &self.timeline
    }

    /// Length of the timeline.
    pub fn version(&self) -> (version: u64)
        ensures
            version == self@.timeline.len(),
    {
        self.timeline.len() as u64
    }

    /// The version up to which `client_id` has been informed, if it is a
    /// client.
    pub fn client_version(&self, client_id: u32) -> (version: Option<u64>)
        ensures
            version is Some <==> self@.versions.contains_key(client_id),
            version matches Some(v) ==> v == self@.versions[client_id],
    {
        broadcast use group_hash_axioms;

        match self.client_data.get(&client_id) {
            Some(data) => Some(data.version),
            None => None,
        }
    }

    /// Takes a client in: it counts as informed of the whole timeline, and
    /// gets the text and the timeline as its first packet.
    pub fn join(&mut self, client_id: u32) -> (snapshot: Snapshot)
        requires
            old(self)@.wf(),
        ensures
            final(self)@ == old(self)@.join(client_id),
            final(self)@.wf(),
            encode_utf8(snapshot.buffer@) == old(self)@.text,
            snapshot.timeline@ == old(self)@.timeline,
    {
        broadcast use group_hash_axioms;

        let _ = self.client_data.insert(client_id, ClientData::new(self.timeline.len() as u64));
        proof {
            assert(self@.versions =~= old(self)@.versions.insert(
                client_id,
                self@.timeline.len() as u64,
            ));
        }
        let mut timeline: Vec<(u32, Operation)> = Vec::new();
        let mut i: usize = 0;
        while i < self.timeline.len()
            invariant
                i <= self.timeline.len(),
                timeline@ == self.timeline@.take(i as int),
            decreases self.timeline.len() - i,
        {
            timeline.push((self.timeline[i].0, self.timeline[i].1.clone()));
            proof {
                assert(timeline@ =~= self.timeline@.take(i + 1));
            }
            i = i + 1;
        }
        proof {
            assert(timeline@ =~= self.timeline@);
        }
        Snapshot { buffer: self.buf_op.buffer().buffer().clone(), timeline }
    }

    /// Lets a client go.
    pub fn disconnect(&mut self, client_id: u32)
        requires
            old(self)@.wf(),
        ensures
            final(self)@ == old(self)@.disconnect(client_id),
            final(self)@.wf(),
    {
        broadcast use group_hash_axioms;

        let _ = self.client_data.remove(&client_id);
        proof {
            assert(self@.versions =~= old(self)@.versions.remove(client_id));
        }
    }

    /// Handles a request of `client_id` and returns what is to be sent. A
    /// command changes nothing and is answered by nothing.
    pub fn handle_packet(&mut self, client_id: u32, request: Request) -> (out: Vec<Outgoing>)
        requires
            old(self)@.wf(),
        ensures
            final(self)@.wf(),
            request matches Request::Op(client_version, op) ==> {
                &&& final(self)@ == old(self)@.process(client_id, client_version, op)
                &&& old(self)@.versions.contains_key(client_id) ==> is_reply(
                    out@,
                    old(self)@,
                    client_id,
                    old(self)@.accept(client_id, client_version, op),
                )
                &&& !old(self)@.versions.contains_key(client_id) ==> out@.len() == 0
            },
            request is Command ==> final(self)@ == old(self)@ && out@.len() == 0,
    {
        match request {
            Request::Op(client_version, op) => self.process_operation(
                client_id,
                client_version,
                op,
            ),
            Request::Command(_, _) => Vec::new(),
        }
    }

    /// The clients, each once, in no particular order.
    fn client_ids(&self) -> (ids: Vec<u32>)
        ensures
            ids@.no_duplicates(),
            forall|c: u32| self@.versions.contains_key(c) <==> ids@.contains(c),
    {
        broadcast use group_hash_axioms;

        let mut ids: Vec<u32> = Vec::new();
        let keys = self.client_data.keys();
        let ghost all = keys.remaining();
        proof {
            assert(forall|c: u32| self@.versions.contains_key(c) <==> all.unref().to_set().contains(c));
        }
        for key in it: keys
            invariant
                it.seq() == all,
                ids@.len() == it.index(),
                forall|j: int| 0 <= j < ids@.len() ==> ids@[j] == *all[j],
        {
            ids.push(*key);
        }
        proof {
            assert(ids@ =~= all.unref());
            assert forall|c: u32| self@.versions.contains_key(c) <==> ids@.contains(c) by {
                assert(all.unref().to_set().contains(c) <==> all.unref().contains(c));
            }
            assert forall|i: int, j: int| 0 <= i < ids@.len() && 0 <= j < ids@.len() && i != j implies ids@[i] != ids@[j] by {
                assert(all[i] != all[j]);
            }
        }
        ids
    }

    /// Informs every client but `exclude` that is behind of what it has not
    /// seen of the timeline.
    pub fn sync_all_clients(&mut self, exclude: Option<u32>) -> (out: Vec<Outgoing>)
        requires
            old(self)@.wf(),
        ensures
            final(self)@ == old(self)@.sync_all(exclude),
            final(self)@.wf(),
            is_broadcast(out@, old(self)@, exclude),
    {
        broadcast use group_hash_axioms;

        let ids = self.client_ids();
        let end = self.timeline.len() as u64;
        let mut out: Vec<Outgoing> = Vec::new();
        let ghost before = self@;
        let mut i: usize = 0;
        while i < ids.len()
            invariant
                i <= ids.len(),
                before == old(self)@,
                before.wf(),
                end == before.timeline.len(),
                ids@.no_duplicates(),
                forall|c: u32| before.versions.contains_key(c) <==> ids@.contains(c),
                self@.text == before.text,
                self@.timeline == before.timeline,
                self@.base == before.base,
                self@.versions.dom() == before.versions.dom(),
                forall|j: int|
                    0 <= j < ids.len() ==> self@.versions[#[trigger] ids@[j]] == if j < i && exclude
                        != Some(ids@[j]) {
                        end
                    } else {
                        before.versions[ids@[j]]
                    },
                is_broadcast_so_far(out@, before, exclude, ids@, i as int),
            decreases ids.len() - i,
        {
            let id = ids[i];
            let excluded = match exclude {
                Some(e) => e == id,
                None => false,
            };
            let ghost sent = out@;
            let ghost versions = self@.versions;
            proof {
                assert(ids@.contains(id));
                assert(self@.versions.dom().contains(id));
            }
            if !excluded {
                let version = match self.client_data.get(&id) {
                    Some(data) => data.version,
                    None => end,
                };
                if version < end {
                    let packet = self._sync_client(id, version);
                    out.push(packet);
                    let _ = self.client_data.insert(id, ClientData::new(end));
                    proof {
                        assert(self@.versions =~= versions.insert(id, end));
                        assert(out@[sent.len() as int].client_id == id);
                        assert forall|k: int| 0 <= k < sent.len() implies sent[k].client_id
                            != id by {
                            let j = choose|j: int| 0 <= j < i && ids@[j] == sent[k].client_id;
                        }
                    }
                }
            }
            proof {
                assert forall|j: int| 0 <= j < ids.len() implies self@.versions[#[trigger] ids@[j]]
                    == if j < i + 1 && exclude != Some(ids@[j]) {
                    end
                } else {
                    before.versions[ids@[j]]
                } by {
                    if j != i {
                        assert(ids@[j] != ids@[i as int]);
                    }
                }
                assert forall|k: int| 0 <= k < out@.len() implies listed(
                    ids@,
                    i + 1,
                    (#[trigger] out@[k]).client_id,
                ) by {
                    if k < sent.len() {
                        assert(out@[k] == sent[k]);
                        let j = choose|j: int| 0 <= j < i && ids@[j] == sent[k].client_id;
                        assert(ids@[j] == out@[k].client_id);
                    } else {
                        assert(ids@[i as int] == out@[k].client_id);
                    }
                }
                assert forall|j: int|
                    0 <= j < i + 1 && before.behind(#[trigger] ids@[j]) && exclude != Some(
                        ids@[j],
                    ) implies sent_to(out@, ids@[j]) by {
                    if j < i {
                        let k = choose|k: int| 0 <= k < sent.len() && sent[k].client_id == ids@[j];
                        assert(out@[k].client_id == ids@[j]);
                    } else {
                        assert(out@[sent.len() as int].client_id == ids@[j]);
                    }
                }
                assert forall|k: int| 0 <= k < out@.len() implies {
                    &&& before.behind((#[trigger] out@[k]).client_id)
                    &&& exclude != Some(out@[k].client_id)
                    &&& is_sync(
                        out@[k],
                        out@[k].client_id,
                        before.unseen(before.versions[out@[k].client_id] as int),
                    )
                } by {
                    if k < sent.len() {
                        assert(out@[k] == sent[k]);
                    }
                }
            }
            i = i + 1;
        }
        proof {
            assert(self@.versions =~= before.sync_all(exclude).versions) by {
                assert forall|c: u32| before.versions.contains_key(c) implies self@.versions[c]
                    == before.sync_all(exclude).versions[c] by {
                    assert(ids@.contains(c));
                    let j = choose|j: int| 0 <= j < ids@.len() && ids@[j] == c;
                    assert(self@.versions[ids@[j]] == before.sync_all(exclude).versions[c]);
                }
            }
            assert forall|c: u32|
                #![trigger before.behind(c)]
                before.behind(c) && exclude != Some(c) implies exists|k: int|
                0 <= k < out@.len() && (#[trigger] out@[k]).client_id == c by {
                assert(ids@.contains(c));
                let j = choose|j: int| 0 <= j < ids@.len() && ids@[j] == c;
                assert(sent_to(out@, ids@[j]));
            }
        }
        out
    }

    /// Processes the operation `op` that `client_id` sent at version
    /// `client_version`, and returns what is to be sent: the sender is
    /// first informed of what it has not seen; the operation is rewritten
    /// to follow what other clients have done since `client_version`; if it
    /// survives and is legal on the text, it is executed, appended to the
    /// timeline and acknowledged; then all other clients are informed.
    pub fn process_operation(&mut self, client_id: u32, client_version: u64, op: Operation) -> (out:
        Vec<Outgoing>)
        requires
            old(self)@.wf(),
        ensures
            final(self)@ == old(self)@.process(client_id, client_version, op),
            final(self)@.wf(),
            old(self)@.versions.contains_key(client_id) ==> is_reply(
                out@,
                old(self)@,
                client_id,
                old(self)@.accept(client_id, client_version, op),
            ),
            !old(self)@.versions.contains_key(client_id) ==> out@.len() == 0,
    {
        broadcast use group_hash_axioms;

        let ghost sent = op;
        let mut op = op;
        let mut out: Vec<Outgoing> = Vec::new();
        let ghost before = self@;
        if !self.client_data.contains_key(&client_id) {
            return out;
        }
        match self.sync_client(client_id) {
            Some(packet) => {
                out.push(packet);
            },
            None => {},
        }
        let ghost caught_up: int = if before.behind(client_id) { 1 } else { 0 };
        let _ = self.buf_op.len();
        let mut alive = client_version <= self.timeline.len() as u64;
        if alive {
            let mut i = client_version as usize;
            proof {
                assert(self.timeline@.skip(client_version as int) == before.timeline.skip(
                    client_version as int,
                ));
            }
            while i < self.timeline.len() && alive
                invariant
                    client_version <= i <= self.timeline.len(),
                    self.timeline@ == before.timeline,
                    carried_through(
                        sent,
                        before.timeline.skip(client_version as int),
                        client_id,
                    ) == if alive {
                        carried_through(op, before.timeline.skip(i as int), client_id)
                    } else {
                        None
                    },
                decreases self.timeline.len() - i + if alive { 1int } else { 0int },
            {
                proof {
                    assert(before.timeline.skip(i as int)[0] == before.timeline[i as int]);
                    assert(before.timeline.skip(i as int).drop_first() =~= before.timeline.skip(
                        i + 1,
                    ));
                }
                if self.timeline[i].0 != client_id {
                    alive = self.timeline[i].1.try_do_before(&mut op);
                }
                i = i + 1;
            }
        }
        let ghost carried = if alive { Some(op) } else { None };
        let mut accepted = false;
        if alive {
            match self.buf_op.do_operation(&op) {
                Ok(()) => {
                    proof {
                        let ops = timeline_ops(self.timeline@);
                        let next = timeline_ops(self.timeline@.push((client_id, op)));
                        assert(next.drop_last() =~= ops);
                        assert(next.last() == op);
                    }
                    self.timeline.push((client_id, op));
                    out.push(Outgoing { client_id, packet: Packet::Response(Response::Op) });
                    accepted = true;
                },
                Err(_) => {},
            }
        }
        let end = self.timeline.len() as u64;
        let ghost versions = self@.versions;
        let _ = self.client_data.insert(client_id, ClientData::new(end));
        proof {
            assert(self@.versions =~= versions.insert(client_id, end));
            assert(self@.versions =~= before.versions.insert(client_id, end));
            assert(self@ =~= before.take_in(
                client_id,
                before.accept(client_id, client_version, sent),
            ));
        }
        let ghost head = out@;
        let ghost taken = self@;
        let mut rest = self.sync_all_clients(Some(client_id));
        let ghost tail = rest@;
        out.append(&mut rest);
        proof {
            assert(out@.skip(head.len() as int) =~= tail) by {
                assert(out@ =~= head + tail);
            }
            if before.behind(client_id) {
                assert(out@[0] == head[0]);
            }
            if accepted {
                assert(out@[caught_up] == head[caught_up]);
            }
        }
        out
    }

    /// The packet that informs a client, informed up to `version`, of the
    /// rest of the timeline.
    fn _sync_client(&self, client_id: u32, version: u64) -> (out: Outgoing)
        requires
            version <= self@.timeline.len(),
        ensures
            is_sync(out, client_id, self@.unseen(version as int)),
    {
        let mut ops: Vec<Operation> = Vec::new();
        let merge_start = version as usize;
        let merge_end = self.timeline.len();
        let ghost unseen = self@.unseen(version as int);
        let mut i = merge_start;
        while i < merge_end
            invariant
                merge_start <= i <= merge_end == self.timeline.len(),
                unseen == self@.unseen(merge_start as int),
                ops@ == unseen.take(i - merge_start),
            decreases merge_end - i,
        {
            ops.push(self.timeline[i].1.clone());
            proof {
                assert(ops@ =~= unseen.take(i + 1 - merge_start));
            }
            i = i + 1;
        }
        proof {
            assert(ops@ =~= unseen);
        }
        Outgoing { client_id, packet: Packet::Sync(ops) }
    }

    /// Informs `client_id`, if it is a client that is behind, of what it
    /// has not seen of the timeline.
    pub fn sync_client(&mut self, client_id: u32) -> (out: Option<Outgoing>)
        requires
            old(self)@.wf(),
        ensures
            final(self)@ == old(self)@.sync(client_id),
            final(self)@.wf(),
            out is Some <==> old(self)@.behind(client_id),
            out matches Some(o) ==> is_sync(
                o,
                client_id,
                old(self)@.unseen(old(self)@.versions[client_id] as int),
            ),
    {
        broadcast use group_hash_axioms;

        let version = match self.client_data.get(&client_id) {
            Some(data) => data.version,
            None => {
                return None;
            },
        };
        let end = self.timeline.len() as u64;
        if version < end {
            let out = self._sync_client(client_id, version);
            let _ = self.client_data.insert(client_id, ClientData::new(end));
            proof {
                assert(self@.versions =~= old(self)@.versions.insert(client_id, end));
            }
            Some(out)
        } else {
            proof {
                assert(old(self)@.versions.contains_key(client_id));
                assert(old(self)@.versions[client_id] == version);
                assert(old(self)@.versions.insert(client_id, end) =~= old(self)@.versions);
            }
            None
        }
    }
}

} // verus!

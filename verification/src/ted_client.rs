//! The client side of a session: which operations of the local log the
//! server has acknowledged, which have been sent, and the rebase of the
//! pending ones onto what the server reports.

use crate::cursor::Cursor;
use crate::error::Error;
use crate::operation::Operation;
use crate::ted::{Ted, TedView};
use crate::ted_server::{timeline_ops, Packet, Request, Response};
use vstd::prelude::*;
use vstd::string::*;
use vstd::utf8::*;

verus! {

/// The client's bookkeeping of a session.
pub struct TedClient {
    timeline: Vec<Operation>,
    last_sync: usize,
    pending_queue: usize,
    op_queue: usize,
    cmd_queue: usize,
}

/// The client's bookkeeping as a mathematical value.
#[verifier::ext_equal]
pub struct ClientView {
    /// The client's mirror of the server's timeline.
    pub timeline: Seq<Operation>,
    /// Length of the timeline up to which it has been merged into the text.
    pub last_sync: usize,
    /// Index in the log of the oldest operation that is not acknowledged.
    pub pending_queue: usize,
    /// Index in the log of the first operation that has not been sent.
    pub op_queue: usize,
    /// Index in the command log of the first command that has not been sent.
    pub cmd_queue: usize,
}

/// A client and its editor.
#[verifier::ext_equal]
pub struct Session {
    pub client: ClientView,
    pub ted: TedView,
}

/// A client and its editor as a session.
pub open spec fn session(client: ClientView, ted: TedView) -> Session {
    Session { client, ted }
}

/// The pending operations rewritten to follow `remote`, those that do not
/// survive left out.
pub open spec fn carry_all(remote: Operation, pending: Seq<Operation>) -> Seq<Operation>
    decreases pending.len(),
{
    if pending.len() == 0 {
        Seq::empty()
    } else {
        (match remote.carry_over(pending[0]) {
            Some(op) => seq![op],
            None => Seq::empty(),
        }) + carry_all(remote, pending.drop_first())
    }
}

/// The requests that send the operations `ops` at server version
/// `version`.
pub open spec fn op_requests(version: u64, ops: Seq<Operation>) -> Seq<Request> {
    Seq::new(ops.len(), |i: int| Request::Op(version, ops[i]))
}

/// `request` sends the command `cmd` at server version `version`.
pub open spec fn sends_command(request: Request, version: u64, cmd: Seq<char>) -> bool {
    request matches Request::Command(v, c) && v == version && c@ == cmd
}

/// The editor after the operations `pending`, the last of which was made
/// last, have been taken back, if the text is what they can have made.
pub open spec fn rolled_back(ted: TedView, pending: Seq<Operation>) -> Option<TedView>
    decreases pending.len(),
{
    if pending.len() == 0 {
        Some(ted)
    } else if pending.last().wf() && pending.last().applied(ted.text) {
        rolled_back(ted.revert(pending.last()), pending.drop_last())
    } else {
        None
    }
}

impl Session {
    /// The indices of the bookkeeping lie in the logs and in the timeline,
    /// nothing is acknowledged that was not sent, and the editor is well
    /// formed.
    pub open spec fn wf(self) -> bool {
        &&& self.ted.wf()
        &&& self.client.pending_queue <= self.client.op_queue <= self.ted.log.len()
        &&& self.client.cmd_queue <= self.ted.cmd_log.len()
        &&& self.client.last_sync <= self.client.timeline.len()
    }

    /// The operations that the server has not acknowledged.
    pub open spec fn pending(self) -> Seq<Operation> {
        self.ted.log.skip(self.client.pending_queue as int)
    }

    /// The session with the log entry at `index` taken out.
    pub open spec fn drop_entry(self, index: int) -> Session {
        Session {
            client: ClientView {
                op_queue: if index < self.client.op_queue {
                    (self.client.op_queue - 1) as usize
                } else {
                    self.client.op_queue
                },
                ..self.client
            },
            ted: TedView { log: self.ted.log.remove(index), ..self.ted },
        }
    }

    /// The session after the log entries from `index` on have been
    /// rewritten to follow `remote`: each either follows it or is taken
    /// out.
    pub open spec fn carry_from(self, remote: Operation, index: int) -> Session
        decreases self.ted.log.len() - index,
    {
        if index < 0 || index >= self.ted.log.len() {
            self
        } else {
            let behind = self.carry_from(remote, index + 1);
            match remote.carry_over(self.ted.log[index]) {
                Some(op) => Session {
                    ted: TedView { log: behind.ted.log.update(index, op), ..behind.ted },
                    ..behind
                },
                None => behind.drop_entry(index),
            }
        }
    }

    /// The session after `remotes` have been merged below the pending
    /// operations: for each in turn, the pending operations are rewritten
    /// to follow it and it is executed. `None` when one of them is not
    /// legal on the text it meets.
    pub open spec fn merge(self, remotes: Seq<Operation>) -> Option<Session>
        decreases remotes.len(),
    {
        if remotes.len() == 0 {
            Some(self)
        } else {
            let carried = self.carry_from(remotes[0], self.client.pending_queue as int);
            if remotes[0].legal(carried.ted.text) {
                (Session { ted: carried.ted.execute(remotes[0]), ..carried }).merge(
                    remotes.drop_first(),
                )
            } else {
                None
            }
        }
    }

    /// The session after the log entries from `index` on have been executed
    /// again, in order; one that is no longer legal on the text it meets is
    /// taken out of the log.
    pub open spec fn replay(self, index: int) -> Session
        decreases self.ted.log.len() - index,
    {
        if index < 0 || index >= self.ted.log.len() {
            self
        } else if self.ted.log[index].legal(self.ted.text) {
            (Session { ted: self.ted.execute(self.ted.log[index]), ..self }).replay(index + 1)
        } else {
            self.drop_entry(index).replay(index)
        }
    }

    /// The rebase: the pending operations are taken back, the part of
    /// the timeline that is not merged yet is merged below them, and what
    /// is left of them is executed again. `None` when the text is not what
    /// the pending operations made, or when a merged operation is not legal
    /// on the text it meets.
    pub open spec fn rebase(self) -> Option<Session> {
        let remotes = self.client.timeline.skip(self.client.last_sync as int);
        if remotes.len() == 0 {
            Some(self)
        } else {
            match rolled_back(self.ted, self.pending()) {
                None => None,
                Some(base) => match (Session { ted: base, ..self }).merge(remotes) {
                    None => None,
                    Some(merged) => Some(merged.replay(merged.client.pending_queue as int)),
                },
            }
        }
    }

    /// The session after the server has acknowledged the oldest pending
    /// operation, which thereby enters the mirror of the timeline.
    pub open spec fn acknowledge(self) -> Session {
        Session {
            client: ClientView {
                timeline: self.client.timeline.push(
                    self.ted.log[self.client.pending_queue as int],
                ),
                pending_queue: (self.client.pending_queue + 1) as usize,
                last_sync: (self.client.last_sync + 1) as usize,
                ..self.client
            },
            ..self
        }
    }

    /// The session with `ops` appended to the mirror of the timeline.
    pub open spec fn receive(self, ops: Seq<Operation>) -> Session {
        Session {
            client: ClientView { timeline: self.client.timeline + ops, ..self.client },
            ..self
        }
    }

    /// The session with everything in the timeline marked as merged.
    pub open spec fn synced(self) -> Session {
        Session {
            client: ClientView { last_sync: self.client.timeline.len() as usize, ..self.client },
            ..self
        }
    }
}

/// What an acknowledgement does: it is accepted exactly when an operation
/// that was sent is pending, and then that operation is acknowledged; else
/// nothing changes.
pub open spec fn responded(before: Session, after: Session, r: Result<(), Error>) -> bool {
    &&& r is Ok <==> before.client.pending_queue < before.client.op_queue
    &&& r is Ok ==> after == before.acknowledge()
    &&& r is Err ==> r == Err::<(), Error>(Error::DecodeError) && after == before
}

/// What taking in a part of the timeline does, `before` being the session
/// with that part appended to the mirror: the rebase, with everything
/// merged afterwards.
pub open spec fn merged(before: Session, after: Session, r: Result<(), Error>) -> bool {
    &&& r is Ok <==> before.rebase() is Some
    &&& r is Ok ==> Some(after) == (match before.rebase() {
        Some(s) => Some(s.synced()),
        None => None,
    })
    &&& r is Err ==> r == Err::<(), Error>(Error::OutOfRange)
}

/// Rewriting the log from `index` on leaves the log before `index`, the
/// text, the cursor and all bookkeeping but the send cursor as they are,
/// and the send cursor stays between the pending boundary and the end of
/// the log.
pub proof fn lemma_carry_from(s: Session, remote: Operation, index: int)
    requires
        s.client.pending_queue <= s.client.op_queue <= s.ted.log.len(),
        s.client.pending_queue <= index <= s.ted.log.len(),
    ensures
        s.carry_from(remote, index).ted.log.len() >= index,
        s.carry_from(remote, index).ted.log.take(index) == s.ted.log.take(index),
        s.carry_from(remote, index).ted == (TedView {
            log: s.carry_from(remote, index).ted.log,
            ..s.ted
        }),
        s.carry_from(remote, index).client == (ClientView {
            op_queue: s.carry_from(remote, index).client.op_queue,
            ..s.client
        }),
        s.client.pending_queue <= s.carry_from(remote, index).client.op_queue <= s.carry_from(
            remote,
            index,
        ).ted.log.len(),
    decreases s.ted.log.len() - index,
{
    if index < s.ted.log.len() {
        lemma_carry_from(s, remote, index + 1);
        let behind = s.carry_from(remote, index + 1);
        let done = s.carry_from(remote, index);
        assert(behind.ted.log.take(index) =~= behind.ted.log.take(index + 1).take(index));
        assert(s.ted.log.take(index) =~= s.ted.log.take(index + 1).take(index));
        assert(done.ted.log.take(index) =~= s.ted.log.take(index));
    } else {
        assert(s.ted.log.take(index) =~= s.ted.log);
    }
}

impl View for TedClient {
    type V = ClientView;

    closed spec fn view(&self) -> ClientView {
        ClientView {
            timeline: self.timeline@,
            last_sync: self.last_sync,
            pending_queue: self.pending_queue,
            op_queue: self.op_queue,
            cmd_queue: self.cmd_queue,
        }
    }
}

impl TedClient {
    /// A client that knows nothing of the server yet.
    pub fn new() -> (client: TedClient)
        ensures
            client@ == (ClientView {
                timeline: Seq::empty(),
                last_sync: 0,
                pending_queue: 0,
                op_queue: 0,
                cmd_queue: 0,
            }),
    {
        TedClient {
            timeline: Vec::new(),
            last_sync: 0,
            pending_queue: 0,
            op_queue: 0,
            cmd_queue: 0,
        }
    }

    /// Takes in the first packet of a session, the text and the timeline of
    /// the server, and returns an editor on that text. Everything in the
    /// timeline counts as merged.
    pub fn download_buffer(&mut self, buffer: String, timeline: Vec<(u32, Operation)>) -> (ted: Ted)
        ensures
            final(self)@ == (ClientView {
                timeline: timeline_ops(timeline@),
                last_sync: timeline@.len() as usize,
                ..old(self)@
            }),
            ted@ == TedView::initial(encode_utf8(buffer@), 1, None),
            ted@.wf(),
    {
        let mut ops: Vec<Operation> = Vec::new();
        let mut i: usize = 0;
        while i < timeline.len()
            invariant
                i <= timeline.len(),
                ops@ == timeline_ops(timeline@).take(i as int),
            decreases timeline.len() - i,
        {
            ops.push(timeline[i].1.clone());
            proof {
                assert(ops@ =~= timeline_ops(timeline@).take(i + 1));
            }
            i = i + 1;
        }
        proof {
            assert(ops@ =~= timeline_ops(timeline@));
        }
        self.timeline = ops;
        self.last_sync = self.timeline.len();
        Ted::from_string(1, buffer)
    }

    /// The server version that the client knows: the length of its mirror
    /// of the timeline.
    pub fn version(&self) -> (version: u64)
        ensures
            version == self@.timeline.len(),
    {
        self.timeline.len() as u64
    }

    /// Tells whether the client and its editor are well formed together.
    pub fn is_wf(&self, ted: &Ted) -> (wf: bool)
        ensures
            wf == session(self@, ted@).wf(),
    {
        ted.is_wf() && self.pending_queue <= self.op_queue && self.op_queue <= ted.log_len()
            && self.cmd_queue <= ted.cmd_log_len() && self.last_sync <= self.timeline.len()
    }

    /// The client's mirror of the timeline.
    pub fn timeline(&self) -> (timeline: &Vec<Operation>)
        ensures
            timeline@ == self@.timeline,
    {
        &self.timeline
    }

    /// Index in the log of the oldest operation that the server has not
    /// acknowledged.
    pub fn pending_queue(&self) -> (index: usize)
        ensures
            index == self@.pending_queue,
    {
        self.pending_queue
    }

    /// Index in the log of the first operation that has not been sent.
    pub fn op_queue(&self) -> (index: usize)
        ensures
            index == self@.op_queue,
    {
        self.op_queue
    }

    /// Index in the command log of the first command that has not been
    /// sent.
    pub fn cmd_queue(&self) -> (index: usize)
        ensures
            index == self@.cmd_queue,
    {
        self.cmd_queue
    }

    /// Length of the timeline up to which it has been merged into the text.
    pub fn last_sync(&self) -> (index: usize)
        ensures
            index == self@.last_sync,
    {
        self.last_sync
    }

    /// The requests that send the logged operations which have not been
    /// sent yet; all of them count as sent afterwards.
    pub fn send_operations(&mut self, ted: &Ted) -> (requests: Vec<Request>)
        requires
            old(self)@.op_queue <= ted@.log.len(),
        ensures
            requests@ == op_requests(
                old(self)@.timeline.len() as u64,
                ted@.log.skip(old(self)@.op_queue as int),
            ),
            final(self)@ == (ClientView { op_queue: ted@.log.len() as usize, ..old(self)@ }),
    {
        let mut requests: Vec<Request> = Vec::new();
        let ghost unsent = ted@.log.skip(self.op_queue as int);
        let ghost version = self.timeline.len() as u64;
        let mut i = self.op_queue;
        while i < ted.log_len()
            invariant
                self.op_queue <= i <= ted@.log.len(),
                unsent == ted@.log.skip(self.op_queue as int),
                version == self.timeline.len() as u64,
                requests@ == op_requests(version, unsent).take(i - self.op_queue),
            decreases ted@.log.len() - i,
        {
            requests.push(self.send_operation(ted.log_entry(i).clone()));
            proof {
                assert(requests@ =~= op_requests(version, unsent).take(i + 1 - self.op_queue));
            }
            i = i + 1;
        }
        proof {
            assert(requests@ =~= op_requests(version, unsent));
        }
        self.op_queue = ted.log_len();
        requests
    }

    /// The requests that send the logged commands which have not been sent
    /// yet; all of them count as sent afterwards.
    pub fn send_commands(&mut self, ted: &Ted) -> (requests: Vec<Request>)
        requires
            old(self)@.cmd_queue <= ted@.cmd_log.len(),
        ensures
            requests@.len() == ted@.cmd_log.len() - old(self)@.cmd_queue,
            forall|i: int|
                0 <= i < requests@.len() ==> sends_command(
                    #[trigger] requests@[i],
                    old(self)@.timeline.len() as u64,
                    ted@.cmd_log[old(self)@.cmd_queue + i],
                ),
            final(self)@ == (ClientView { cmd_queue: ted@.cmd_log.len() as usize, ..old(self)@ }),
    {
        let mut requests: Vec<Request> = Vec::new();
        let ghost start = self.cmd_queue;
        let mut i = self.cmd_queue;
        while i < ted.cmd_log_len()
            invariant
                start == self.cmd_queue <= i <= ted@.cmd_log.len(),
                self@ == old(self)@,
                requests@.len() == i - start,
                forall|k: int|
                    0 <= k < requests@.len() ==> sends_command(
                        #[trigger] requests@[k],
                        self@.timeline.len() as u64,
                        ted@.cmd_log[start + k],
                    ),
            decreases ted@.cmd_log.len() - i,
        {
            let ghost sent = requests@;
            let request = self.send_command(ted.cmd_log_entry(i).clone());
            requests.push(request);
            proof {
                assert forall|k: int| 0 <= k < requests@.len() implies sends_command(
                    #[trigger] requests@[k],
                    self@.timeline.len() as u64,
                    ted@.cmd_log[start + k],
                ) by {
                    if k < sent.len() {
                        assert(requests@[k] == sent[k]);
                    } else {
                        assert(requests@[k] == request);
                    }
                }
            }
            i = i + 1;
        }
        self.cmd_queue = ted.cmd_log_len();
        requests
    }

    /// The request that sends `op`.
    fn send_operation(&self, op: Operation) -> (request: Request)
        ensures
            request == Request::Op(self@.timeline.len() as u64, op),
    {
        Request::Op(self.timeline.len() as u64, op)
    }

    /// The request that sends `cmd`.
    fn send_command(&self, cmd: String) -> (request: Request)
        ensures
            request == Request::Command(self@.timeline.len() as u64, cmd),
    {
        Request::Command(self.timeline.len() as u64, cmd)
    }

    /// Handles a packet from the server: an acknowledgement or a part of
    /// the timeline.
    pub fn handle_packet(&mut self, ted: &mut Ted, packet: Packet) -> (r: Result<(), Error>)
        requires
            session(old(self)@, old(ted)@).wf(),
        ensures
            session(final(self)@, final(ted)@).wf(),
            packet is Response ==> responded(
                session(old(self)@, old(ted)@),
                session(final(self)@, final(ted)@),
                r,
            ),
            packet matches Packet::Sync(ops) ==> merged(
                session(old(self)@, old(ted)@).receive(ops@),
                session(final(self)@, final(ted)@),
                r,
            ),
    {
        match packet {
            Packet::Response(response) => self.handle_response_packet(ted, response),
            Packet::Sync(ops) => self.handle_sync_packet(ted, ops),
        }
    }

    /// Handles an acknowledgement: the oldest pending operation has entered
    /// the timeline. An acknowledgement when nothing that was sent is
    /// pending is refused.
    pub fn handle_response_packet(&mut self, ted: &Ted, response: Response) -> (r: Result<
        (),
        Error,
    >)
        requires
            session(old(self)@, ted@).wf(),
        ensures
            session(final(self)@, ted@).wf(),
            responded(
                session(old(self)@, ted@),
                session(final(self)@, ted@),
                r,
            ),
    {
        match response {
            Response::Op => {
                if self.pending_queue < self.op_queue {
                    let op_index = self.pending_queue;
                    self.timeline.push(ted.log_entry(op_index).clone());
                    let _ = self.timeline.len();
                    self.pending_queue += 1;
                    self.last_sync += 1;
                    Ok(())
                } else {
                    Err(Error::DecodeError)
                }
            },
        }
    }

    /// Handles a part of the timeline that the server sends: it is appended
    /// to the mirror of the timeline and merged below the pending
    /// operations.
    pub fn handle_sync_packet(&mut self, ted: &mut Ted, ops: Vec<Operation>) -> (r: Result<
        (),
        Error,
    >)
        requires
            session(old(self)@, old(ted)@).wf(),
        ensures
            session(final(self)@, final(ted)@).wf(),
            merged(
                session(old(self)@, old(ted)@).receive(ops@),
                session(final(self)@, final(ted)@),
                r,
            ),
    {
        let mut ops = ops;
        self.timeline.append(&mut ops);
        match self.merge_synced_ops(ted) {
            Ok(()) => {
                self.last_sync = self.timeline.len();
                Ok(())
            },
            Err(e) => Err(e),
        }
    }

    /// The rebase: takes the pending operations back, merges the part of
    /// the timeline that is not merged yet below them, and executes what is
    /// left of them again.
    pub fn merge_synced_ops(&mut self, ted: &mut Ted) -> (r: Result<(), Error>)
        requires
            session(old(self)@, old(ted)@).wf(),
        ensures
            session(final(self)@, final(ted)@).wf(),
            r is Ok <==> session(old(self)@, old(ted)@).rebase() is Some,
            r is Ok ==> Some(session(final(self)@, final(ted)@)) == session(
                old(self)@,
                old(ted)@,
            ).rebase(),
            r is Err ==> r == Err::<(), Error>(Error::OutOfRange),
    {
        let ghost start = session(self@, ted@);
        let ghost remotes = self.timeline@.skip(self.last_sync as int);
        if self.last_sync == self.timeline.len() {
            return Ok(());
        }
        // Take the pending operations back, the last one first.
        let mut i = ted.log_len();
        proof {
            assert(start.ted.log.subrange(self.pending_queue as int, i as int) =~= start.pending());
        }
        while i > self.pending_queue
            invariant
                self@ == start.client,
                start == session(old(self)@, old(ted)@),
                remotes == start.client.timeline.skip(start.client.last_sync as int),
                remotes.len() > 0,
                start.wf(),
                ted@.wf(),
                ted@.log == start.ted.log,
                ted@.cmd_log == start.ted.cmd_log,
                self.pending_queue <= i <= ted@.log.len(),
                rolled_back(start.ted, start.pending()) == rolled_back(
                    ted@,
                    start.ted.log.subrange(self.pending_queue as int, i as int),
                ),
            decreases i,
        {
            i = i - 1;
            let op = ted.log_entry(i).clone();
            proof {
                let before = start.ted.log.subrange(self.pending_queue as int, i + 1);
                assert(before.drop_last() =~= start.ted.log.subrange(
                    self.pending_queue as int,
                    i as int,
                ));
                assert(before.last() == op);
            }
            match ted.undo_operation(&op) {
                Ok(()) => {},
                Err(e) => {
                    return Err(e);
                },
            }
        }
        // Merge the new part of the timeline below them.
        let ghost base = Session { ted: ted@, ..start };
        let mut k = self.last_sync;
        proof {
            assert(remotes.skip(0) =~= remotes);
        }
        while k < self.timeline.len()
            invariant
                start.wf(),
                start == session(old(self)@, old(ted)@),
                remotes == start.client.timeline.skip(start.client.last_sync as int),
                remotes.len() > 0,
                rolled_back(start.ted, start.pending()) == Some(base.ted),
                base == (Session { ted: base.ted, ..start }),
                self@ == (ClientView { op_queue: self@.op_queue, ..start.client }),
                self.last_sync <= k <= self.timeline@.len(),
                ted@.wf(),
                ted@.cmd_log == start.ted.cmd_log,
                self.pending_queue <= self.op_queue <= ted@.log.len(),
                base.merge(remotes) == session(self@, ted@).merge(
                    remotes.skip(k - self.last_sync),
                ),
            decreases self.timeline@.len() - k,
        {
            let remote = self.timeline[k].clone();
            let ghost round = session(self@, ted@);
            proof {
                assert(remotes.skip(k - self.last_sync)[0] == remote);
                assert(remotes.skip(k - self.last_sync).drop_first() =~= remotes.skip(
                    k + 1 - self.last_sync,
                ));
            }
            let mut i = ted.log_len();
            while i > self.pending_queue
                invariant
                    round.wf(),
                    round.client.pending_queue == self.pending_queue,
                    self.pending_queue <= i <= round.ted.log.len(),
                    session(self@, ted@) == round.carry_from(remote, i as int),
                decreases i,
            {
                i = i - 1;
                proof {
                    lemma_carry_from(round, remote, i + 1);
                    assert(ted@.log[i as int] == round.ted.log.take(i + 1)[i as int]);
                }
                let alive = remote.try_do_before(ted.log_entry_mut(i));
                if !alive {
                    let _ = ted.remove_log_entry(i);
                    if i < self.op_queue {
                        self.op_queue -= 1;
                    }
                }
            }
            proof {
                lemma_carry_from(round, remote, self.pending_queue as int);
            }
            match ted.do_operation(&remote) {
                Ok(()) => {},
                Err(e) => {
                    return Err(e);
                },
            }
            k = k + 1;
        }
        // Execute what is left of the pending operations again.
        let ghost merged = session(self@, ted@);
        proof {
            assert(remotes.skip(k - self.last_sync) =~= Seq::<Operation>::empty());
        }
        let mut i = self.pending_queue;
        while i < ted.log_len()
            invariant
                start.wf(),
                self@ == (ClientView { op_queue: self@.op_queue, ..start.client }),
                ted@.wf(),
                ted@.cmd_log == start.ted.cmd_log,
                self.pending_queue <= self.op_queue <= ted@.log.len(),
                self.pending_queue <= i <= ted@.log.len(),
                merged.replay(merged.client.pending_queue as int) == session(self@, ted@).replay(
                    i as int,
                ),
            decreases ted@.log.len() - i,
        {
            let op = ted.log_entry(i).clone();
            match ted.do_operation(&op) {
                Ok(()) => {
                    if i == self.op_queue {
                        proof {
                            assert(i < ted@.log.len());
                        }
                    }
                    i = i + 1;
                },
                Err(_) => {
                    let _ = ted.remove_log_entry(i);
                    if i < self.op_queue {
                        self.op_queue -= 1;
                    }
                },
            }
        }
        Ok(())
    }

    /// Called when the cursor has moved. The protocol does not report
    /// cursors, so nothing changes.
    pub fn cursor_moved(&mut self, cursor: &Cursor)
        ensures
            final(self)@ == old(self)@,
    {
    }
}

} // verus!

//! Agreement of a client with the server: the rebase that a client makes
//! when it learns what other clients have done leads to the text to which
//! the server comes when it takes in the client's pending operations.

use crate::operation::{lemma_inverse_law, lemma_undo_apply, Operation};
use crate::ted::TedView;
use crate::ted_client::{carry_all, lemma_carry_from, rolled_back, Session};
use crate::ted_server::{carried_through, replay, timeline_ops, ServerView};
use vstd::prelude::*;

verus! {

/// An operation, if there is one, as a sequence.
pub open spec fn opt_seq(op: Option<Operation>) -> Seq<Operation> {
    match op {
        Some(op) => seq![op],
        None => Seq::empty(),
    }
}

/// `op` rewritten to follow each of `remotes` in turn; `None` if it does
/// not survive one of them.
pub open spec fn carry_op(remotes: Seq<Operation>, op: Operation) -> Option<Operation>
    decreases remotes.len(),
{
    if remotes.len() == 0 {
        Some(op)
    } else {
        match remotes[0].carry_over(op) {
            Some(next) => carry_op(remotes.drop_first(), next),
            None => None,
        }
    }
}

/// The operations of `pending`, each rewritten to follow all of `remotes`,
/// without those that do not survive.
pub open spec fn survivors(remotes: Seq<Operation>, pending: Seq<Operation>) -> Seq<Operation>
    decreases pending.len(),
{
    if pending.len() == 0 {
        Seq::empty()
    } else {
        opt_seq(carry_op(remotes, pending[0])) + survivors(remotes, pending.drop_first())
    }
}

/// The list `pending` rewritten to follow each of `remotes` in turn.
pub open spec fn carry_list(remotes: Seq<Operation>, pending: Seq<Operation>) -> Seq<Operation>
    decreases remotes.len(),
{
    if remotes.len() == 0 {
        pending
    } else {
        carry_list(remotes.drop_first(), carry_all(remotes[0], pending))
    }
}

/// The text that `ops` make of `text` when each is executed if it is legal
/// on the text it meets and left out if not, and the operations that were
/// executed.
pub open spec fn lenient(text: Seq<u8>, ops: Seq<Operation>) -> (Seq<u8>, Seq<Operation>)
    decreases ops.len(),
{
    if ops.len() == 0 {
        (text, Seq::empty())
    } else if ops[0].legal(text) {
        let rest = lenient(ops[0].apply(text), ops.drop_first());
        (rest.0, seq![ops[0]] + rest.1)
    } else {
        lenient(text, ops.drop_first())
    }
}

/// The operations `ops` as timeline entries of `client_id`.
pub open spec fn entries_of(client_id: u32, ops: Seq<Operation>) -> Seq<(u32, Operation)> {
    Seq::new(ops.len(), |i: int| (client_id, ops[i]))
}

/// The server after it has processed, in order, the operations `ops` that
/// `client_id` sent at version `version`.
pub open spec fn process_all(
    server: ServerView,
    client_id: u32,
    version: u64,
    ops: Seq<Operation>,
) -> ServerView
    decreases ops.len(),
{
    if ops.len() == 0 {
        server
    } else {
        process_all(
            server.process(client_id, version, ops[0]),
            client_id,
            version,
            ops.drop_first(),
        )
    }
}

/// The survivors of a list are those of its parts.
pub proof fn lemma_survivors_concat(remotes: Seq<Operation>, a: Seq<Operation>, b: Seq<Operation>)
    ensures
        survivors(remotes, a + b) == survivors(remotes, a) + survivors(remotes, b),
    decreases a.len(),
{
    if a.len() == 0 {
        assert(a + b =~= b);
        assert(survivors(remotes, a) + survivors(remotes, b) =~= survivors(remotes, b));
    } else {
        lemma_survivors_concat(remotes, a.drop_first(), b);
        assert((a + b).drop_first() =~= a.drop_first() + b);
        assert((a + b)[0] == a[0]);
        assert(survivors(remotes, a + b) =~= survivors(remotes, a) + survivors(remotes, b));
    }
}

/// The survivors of a list that has been rewritten to follow one operation
/// are the survivors of the list with that operation put first.
pub proof fn lemma_survivors_step(
    first: Operation,
    remotes: Seq<Operation>,
    pending: Seq<Operation>,
)
    ensures
        survivors(remotes, carry_all(first, pending)) == survivors(seq![first] + remotes, pending),
    decreases pending.len(),
{
    let all = seq![first] + remotes;
    assert(all[0] == first);
    assert(all.drop_first() =~= remotes);
    if pending.len() == 0 {
    } else {
        let head = opt_seq(first.carry_over(pending[0]));
        let tail = carry_all(first, pending.drop_first());
        lemma_survivors_step(first, remotes, pending.drop_first());
        lemma_survivors_concat(remotes, head, tail);
        assert(carry_all(first, pending) == head + tail);
        match first.carry_over(pending[0]) {
            Some(next) => {
                assert(head[0] == next);
                assert(head.drop_first() =~= Seq::<Operation>::empty());
                assert(survivors(remotes, head.drop_first()) =~= Seq::<Operation>::empty());
                assert(survivors(remotes, head) =~= opt_seq(carry_op(remotes, next)));
            },
            None => {
                assert(survivors(remotes, head) =~= Seq::<Operation>::empty());
            },
        }
    }
}

/// Rewriting the list operation by operation and rewriting each operation
/// through all operations give the same list.
pub proof fn lemma_carry_list_survivors(remotes: Seq<Operation>, pending: Seq<Operation>)
    ensures
        carry_list(remotes, pending) == survivors(remotes, pending),
    decreases remotes.len(),
{
    if remotes.len() == 0 {
        assert(remotes =~= Seq::<Operation>::empty());
        lemma_survivors_of_none(pending);
    } else {
        assert(seq![remotes[0]] + remotes.drop_first() =~= remotes);
        lemma_carry_list_survivors(remotes.drop_first(), carry_all(remotes[0], pending));
        lemma_survivors_step(remotes[0], remotes.drop_first(), pending);
    }
}

/// Every operation survives no operations, as it is.
pub proof fn lemma_survivors_of_none(pending: Seq<Operation>)
    ensures
        survivors(Seq::empty(), pending) == pending,
    decreases pending.len(),
{
    if pending.len() > 0 {
        lemma_survivors_of_none(pending.drop_first());
        assert(survivors(Seq::empty(), pending) =~= pending);
    }
}

/// Rewriting the log of a session from `index` on rewrites the list of the
/// entries from `index` on.
pub proof fn lemma_carry_from_log(s: Session, remote: Operation, index: int)
    requires
        s.client.pending_queue <= s.client.op_queue <= s.ted.log.len(),
        s.client.pending_queue <= index <= s.ted.log.len(),
    ensures
        s.carry_from(remote, index).ted.log == s.ted.log.take(index) + carry_all(
            remote,
            s.ted.log.skip(index),
        ),
    decreases s.ted.log.len() - index,
{
    let log = s.ted.log;
    if index == log.len() {
        assert(log.skip(index) =~= Seq::<Operation>::empty());
        assert(log.take(index) + carry_all(remote, log.skip(index)) =~= log);
    } else {
        lemma_carry_from_log(s, remote, index + 1);
        lemma_carry_from(s, remote, index + 1);
        let behind = s.carry_from(remote, index + 1);
        assert(log.skip(index)[0] == log[index]);
        assert(log.skip(index).drop_first() =~= log.skip(index + 1));
        assert(log.take(index + 1) =~= log.take(index) + seq![log[index]]);
        assert(s.carry_from(remote, index).ted.log =~= log.take(index) + carry_all(
            remote,
            log.skip(index),
        ));
    }
}

/// Replaying a list is replaying its first operation and then the rest.
pub proof fn lemma_replay_first(base: Seq<u8>, ops: Seq<Operation>)
    requires
        ops.len() > 0,
    ensures
        replay(base, ops) == if ops[0].legal(base) {
            replay(ops[0].apply(base), ops.drop_first())
        } else {
            None
        },
    decreases ops.len(),
{
    if ops.len() == 1 {
        assert(ops.drop_last() =~= Seq::<Operation>::empty());
        assert(ops.drop_first() =~= Seq::<Operation>::empty());
        assert(ops.last() == ops[0]);
    } else {
        lemma_replay_first(base, ops.drop_last());
        assert(ops.drop_last()[0] == ops[0]);
        assert(ops.drop_first().drop_last() =~= ops.drop_last().drop_first());
        assert(ops.drop_first().last() == ops.last());
    }
}

/// Taking operations back changes nothing but the text, the cursor and the
/// flag that marks the text as changed.
pub proof fn lemma_rolled_back(ted: TedView, pending: Seq<Operation>)
    requires
        rolled_back(ted, pending) is Some,
    ensures
        rolled_back(ted, pending)->0 == (TedView {
            text: rolled_back(ted, pending)->0.text,
            cursor: rolled_back(ted, pending)->0.cursor,
            buffer_dirty: rolled_back(ted, pending)->0.buffer_dirty,
            ..ted
        }),
    decreases pending.len(),
{
    if pending.len() > 0 {
        lemma_rolled_back(ted.revert(pending.last()), pending.drop_last());
    }
}

/// What merging does: the remote operations are replayed on the text, and
/// the pending part of the log is rewritten to follow them.
pub proof fn lemma_merge(s: Session, remotes: Seq<Operation>)
    requires
        s.client.pending_queue <= s.client.op_queue <= s.ted.log.len(),
        replay(s.ted.text, remotes) is Some,
    ensures
        s.merge(remotes) is Some,
        s.merge(remotes)->0.ted.text == replay(s.ted.text, remotes)->0,
        s.merge(remotes)->0.ted.log == s.ted.log.take(s.client.pending_queue as int) + carry_list(
            remotes,
            s.pending(),
        ),
        s.merge(remotes)->0.client.pending_queue == s.client.pending_queue,
    decreases remotes.len(),
{
    let ps = s.client.pending_queue as int;
    if remotes.len() == 0 {
        assert(s.ted.log.take(ps) + s.ted.log.skip(ps) =~= s.ted.log);
    } else {
        let first = remotes[0];
        let carried = s.carry_from(first, ps);
        lemma_carry_from(s, first, ps);
        lemma_carry_from_log(s, first, ps);
        lemma_replay_first(s.ted.text, remotes);
        let next = Session { ted: carried.ted.execute(first), ..carried };
        lemma_merge(next, remotes.drop_first());
        assert(next.ted.log.take(ps) =~= s.ted.log.take(ps));
        assert(next.pending() =~= carry_all(first, s.pending()));
    }
}

/// What executing the pending operations again does: the log from `index`
/// on is executed leniently.
pub proof fn lemma_replay_lenient(s: Session, index: int)
    requires
        0 <= index <= s.ted.log.len(),
    ensures
        s.replay(index).ted.text == lenient(s.ted.text, s.ted.log.skip(index)).0,
        s.replay(index).ted.log == s.ted.log.take(index) + lenient(
            s.ted.text,
            s.ted.log.skip(index),
        ).1,
        s.replay(index).client.pending_queue == s.client.pending_queue,
    decreases s.ted.log.len() - index,
{
    let log = s.ted.log;
    if index == log.len() {
        assert(log.skip(index) =~= Seq::<Operation>::empty());
        assert(log.take(index) + Seq::<Operation>::empty() =~= log);
    } else {
        assert(log.skip(index)[0] == log[index]);
        assert(log.skip(index).drop_first() =~= log.skip(index + 1));
        if log[index].legal(s.ted.text) {
            let next = Session { ted: s.ted.execute(log[index]), ..s };
            lemma_replay_lenient(next, index + 1);
            assert(log.take(index + 1) =~= log.take(index) + seq![log[index]]);
            assert(s.replay(index).ted.log =~= log.take(index) + lenient(
                s.ted.text,
                log.skip(index),
            ).1);
        } else {
            let next = s.drop_entry(index);
            lemma_replay_lenient(next, index);
            assert(next.ted.log.skip(index) =~= log.skip(index + 1));
            assert(next.ted.log.take(index) =~= log.take(index));
        }
    }
}

/// The server rewrites an operation of a client to follow what the other
/// clients have done: the client's own entries of the timeline do not
/// count.
pub proof fn lemma_carried_through(
    op: Operation,
    timeline: Seq<(u32, Operation)>,
    client_id: u32,
    others: int,
)
    requires
        0 <= others <= timeline.len(),
        forall|i: int| 0 <= i < others ==> (#[trigger] timeline[i]).0 != client_id,
        forall|i: int| others <= i < timeline.len() ==> (#[trigger] timeline[i]).0 == client_id,
    ensures
        carried_through(op, timeline, client_id) == carry_op(
            timeline_ops(timeline.take(others)),
            op,
        ),
    decreases timeline.len(),
{
    let remotes = timeline_ops(timeline.take(others));
    if timeline.len() == 0 {
    } else if others == 0 {
        assert(timeline[0].0 == client_id);
        lemma_carried_through(op, timeline.drop_first(), client_id, 0);
        assert(timeline.drop_first().take(0) =~= timeline.take(0));
    } else {
        assert(timeline[0].0 != client_id);
        assert(remotes[0] == timeline[0].1);
        assert(remotes.drop_first() =~= timeline_ops(timeline.drop_first().take(others - 1)));
        match timeline[0].1.carry_over(op) {
            Some(next) => {
                lemma_carried_through(next, timeline.drop_first(), client_id, others - 1);
            },
            None => {},
        }
    }
}

/// What the server comes to when it processes the operations `ops` of a
/// client, sent at a version behind which the timeline holds first
/// operations of other clients and then operations of the client itself:
/// on its text it executes leniently the survivors of `ops`, and it appends
/// to the timeline what it executes.
pub proof fn lemma_process_all(
    server: ServerView,
    client_id: u32,
    version: u64,
    ops: Seq<Operation>,
    others: int,
)
    requires
        server.versions.contains_key(client_id),
        version <= others <= server.timeline.len(),
        forall|i: int| version <= i < others ==> (#[trigger] server.timeline[i]).0 != client_id,
        forall|i: int|
            others <= i < server.timeline.len() ==> (#[trigger] server.timeline[i]).0 == client_id,
    ensures
        process_all(server, client_id, version, ops).text == lenient(
            server.text,
            survivors(timeline_ops(server.timeline.subrange(version as int, others)), ops),
        ).0,
        process_all(server, client_id, version, ops).timeline == server.timeline + entries_of(
            client_id,
            lenient(
                server.text,
                survivors(timeline_ops(server.timeline.subrange(version as int, others)), ops),
            ).1,
        ),
    decreases ops.len(),
{
    let remotes = timeline_ops(server.timeline.subrange(version as int, others));
    if ops.len() == 0 {
        assert(server.timeline + entries_of(client_id, Seq::empty()) =~= server.timeline);
    } else {
        let since = server.timeline.skip(version as int);
        assert forall|i: int| 0 <= i < others - version implies (#[trigger] since[i]).0
            != client_id by {
            assert(since[i] == server.timeline[version + i]);
        }
        assert forall|i: int| others - version <= i < since.len() implies (#[trigger] since[i]).0
            == client_id by {
            assert(since[i] == server.timeline[version + i]);
        }
        lemma_carried_through(ops[0], since, client_id, others - version);
        assert(since.take(others - version) =~= server.timeline.subrange(version as int, others));
        let next = server.process(client_id, version, ops[0]);
        let accepted = server.accept(client_id, version, ops[0]);
        assert(next.versions.contains_key(client_id));
        assert(next.timeline.subrange(version as int, others) =~= server.timeline.subrange(
            version as int,
            others,
        ));
        assert forall|i: int| version <= i < others implies (#[trigger] next.timeline[i]).0
            != client_id by {
            assert(next.timeline[i] == server.timeline[i]);
        }
        assert forall|i: int| others <= i < next.timeline.len() implies (
        #[trigger] next.timeline[i]).0 == client_id by {
            if i < server.timeline.len() {
                assert(next.timeline[i] == server.timeline[i]);
            }
        }
        lemma_process_all(next, client_id, version, ops.drop_first(), others);
        let rest = survivors(remotes, ops.drop_first());
        let head = opt_seq(carry_op(remotes, ops[0]));
        assert(survivors(remotes, ops) == head + rest);
        match accepted {
            Some(op) => {
                assert(head == seq![op]);
                assert((head + rest)[0] == op);
                assert((head + rest).drop_first() =~= rest);
                let kept = lenient(next.text, rest).1;
                assert(server.timeline.push((client_id, op)) + entries_of(client_id, kept)
                    =~= server.timeline + entries_of(client_id, seq![op] + kept));
            },
            None => {
                match carry_op(remotes, ops[0]) {
                    Some(op) => {
                        assert((head + rest)[0] == op);
                        assert((head + rest).drop_first() =~= rest);
                    },
                    None => {
                        assert(head + rest =~= rest);
                    },
                }
            },
        }
    }
}

/// What a rebase comes to: when the pending operations can be taken back
/// and the operations to be merged can be replayed on the text that is
/// then left, the text after the rebase is what the survivors of the
/// pending operations, executed leniently, make of the replayed text, and
/// the operations that were executed are the pending operations
/// afterwards.
pub proof fn lemma_rebase(session: Session)
    requires
        session.client.pending_queue <= session.client.op_queue <= session.ted.log.len(),
        session.client.last_sync < session.client.timeline.len(),
        rolled_back(session.ted, session.pending()) is Some,
        replay(
            rolled_back(session.ted, session.pending())->0.text,
            session.client.timeline.skip(session.client.last_sync as int),
        ) is Some,
    ensures
        session.rebase() is Some,
        session.rebase()->0.ted.text == lenient(
            replay(
                rolled_back(session.ted, session.pending())->0.text,
                session.client.timeline.skip(session.client.last_sync as int),
            )->0,
            survivors(
                session.client.timeline.skip(session.client.last_sync as int),
                session.pending(),
            ),
        ).0,
        session.rebase()->0.pending() == lenient(
            replay(
                rolled_back(session.ted, session.pending())->0.text,
                session.client.timeline.skip(session.client.last_sync as int),
            )->0,
            survivors(
                session.client.timeline.skip(session.client.last_sync as int),
                session.pending(),
            ),
        ).1,
        session.rebase()->0.ted.log.take(session.client.pending_queue as int)
            == session.ted.log.take(session.client.pending_queue as int),
{
    let remotes = session.client.timeline.skip(session.client.last_sync as int);
    let pending = session.pending();
    let ps = session.client.pending_queue as int;
    let base = rolled_back(session.ted, pending)->0;
    lemma_rolled_back(session.ted, pending);
    let rolled = Session { ted: base, ..session };
    lemma_merge(rolled, remotes);
    let merged = rolled.merge(remotes)->0;
    lemma_carry_list_survivors(remotes, pending);
    lemma_replay_lenient(merged, ps);
    let left = survivors(remotes, pending);
    assert(rolled.pending() =~= pending);
    assert(merged.ted.log.skip(ps) =~= left);
    assert(merged.ted.log.take(ps) =~= session.ted.log.take(ps));
    let after = merged.replay(ps);
    assert(after.pending() =~= lenient(merged.ted.text, left).1);
    assert(after.ted.log.take(ps) =~= session.ted.log.take(ps));
}

/// Operations that can all be replayed are all executed when they are
/// executed leniently.
pub proof fn lemma_lenient_replay(text: Seq<u8>, ops: Seq<Operation>)
    requires
        replay(text, ops) is Some,
    ensures
        lenient(text, ops) == (replay(text, ops)->0, ops),
    decreases ops.len(),
{
    if ops.len() == 0 {
        assert(ops =~= Seq::<Operation>::empty());
    } else {
        lemma_replay_first(text, ops);
        lemma_lenient_replay(ops[0].apply(text), ops.drop_first());
        assert(seq![ops[0]] + ops.drop_first() =~= ops);
    }
}

/// Replaying a list is replaying its first part and then its second.
pub proof fn lemma_replay_concat(text: Seq<u8>, first: Seq<Operation>, second: Seq<Operation>)
    ensures
        replay(text, first + second) == match replay(text, first) {
            Some(between) => replay(between, second),
            None => None,
        },
    decreases second.len(),
{
    if second.len() == 0 {
        assert(first + second =~= first);
    } else {
        lemma_replay_concat(text, first, second.drop_last());
        assert((first + second).drop_last() =~= first + second.drop_last());
        assert((first + second).last() == second.last());
    }
}

/// Rewriting a list to follow two lists of operations, one after the
/// other, is rewriting it to follow both.
pub proof fn lemma_carry_list_concat(
    first: Seq<Operation>,
    second: Seq<Operation>,
    pending: Seq<Operation>,
)
    ensures
        carry_list(first + second, pending) == carry_list(second, carry_list(first, pending)),
    decreases first.len(),
{
    if first.len() == 0 {
        assert(first + second =~= second);
    } else {
        lemma_carry_list_concat(first.drop_first(), second, carry_all(first[0], pending));
        assert((first + second).drop_first() =~= first.drop_first() + second);
        assert((first + second)[0] == first[0]);
    }
}

/// Every text on the way from `base` through `ops` is short enough for
/// 64-bit offsets.
pub open spec fn replay_fits(base: Seq<u8>, ops: Seq<Operation>) -> bool
    decreases ops.len(),
{
    if ops.len() == 0 {
        true
    } else {
        &&& replay_fits(base, ops.drop_last())
        &&& replay(base, ops) is Some
        &&& replay(base, ops)->0.len() <= u64::MAX
    }
}

/// What has been replayed can be taken back: from an editor whose text is
/// what `ops` made of `base`, taking `ops` back leads to the text `base`.
pub proof fn lemma_roll_back(ted: TedView, base: Seq<u8>, ops: Seq<Operation>)
    requires
        replay(base, ops) == Some(ted.text),
        replay_fits(base, ops),
    ensures
        rolled_back(ted, ops) is Some,
        rolled_back(ted, ops)->0.text == base,
    decreases ops.len(),
{
    if ops.len() > 0 {
        let last = ops.last();
        let before = replay(base, ops.drop_last())->0;
        lemma_undo_apply(last, before);
        if last.text().len() > 0 {
            lemma_inverse_law(last, before);
        } else {
            assert(last.apply(before) =~= before);
        }
        lemma_roll_back(ted.revert(last), base, ops.drop_last());
    }
}

/// Executing the log again keeps the send cursor between the pending
/// boundary and the end of the log.
pub proof fn lemma_replay_bounds(s: Session, index: int)
    requires
        s.client.pending_queue <= s.client.op_queue <= s.ted.log.len(),
        s.client.pending_queue <= index <= s.ted.log.len(),
    ensures
        s.replay(index).client.pending_queue <= s.replay(index).client.op_queue <= s.replay(index).ted.log.len(),
        s.replay(index).client == (crate::ted_client::ClientView {
            op_queue: s.replay(index).client.op_queue,
            ..s.client
        }),
    decreases s.ted.log.len() - index,
{
    if index < s.ted.log.len() {
        if s.ted.log[index].legal(s.ted.text) {
            lemma_replay_bounds(Session { ted: s.ted.execute(s.ted.log[index]), ..s }, index + 1);
        } else {
            lemma_replay_bounds(s.drop_entry(index), index);
        }
    }
}

/// Merging keeps the send cursor between the pending boundary and the end
/// of the log, and the rest of the bookkeeping as it is.
pub proof fn lemma_merge_bounds(s: Session, remotes: Seq<Operation>)
    requires
        s.client.pending_queue <= s.client.op_queue <= s.ted.log.len(),
        s.merge(remotes) is Some,
    ensures
        s.merge(remotes)->0.client.pending_queue <= s.merge(remotes)->0.client.op_queue
            <= s.merge(remotes)->0.ted.log.len(),
        s.merge(remotes)->0.client == (crate::ted_client::ClientView {
            op_queue: s.merge(remotes)->0.client.op_queue,
            ..s.client
        }),
    decreases remotes.len(),
{
    if remotes.len() > 0 {
        let ps = s.client.pending_queue as int;
        let carried = s.carry_from(remotes[0], ps);
        lemma_carry_from(s, remotes[0], ps);
        lemma_merge_bounds(
            Session { ted: carried.ted.execute(remotes[0]), ..carried },
            remotes.drop_first(),
        );
    }
}

/// Rebasing in steps: a client that learns of `first`, rebases, then
/// learns of `second` and rebases again comes to the text and the pending
/// operations to which it comes when it learns of both at once, provided
/// that all its pending operations that survive `first` can be executed
/// again after the first rebase.
pub proof fn lemma_rebase_in_steps(
    session: Session,
    first: Seq<Operation>,
    second: Seq<Operation>,
)
    requires
        session.client.pending_queue <= session.client.op_queue <= session.ted.log.len(),
        session.client.last_sync == session.client.timeline.len(),
        first.len() > 0,
        second.len() > 0,
        session.client.timeline.len() + first.len() <= usize::MAX,
        rolled_back(session.ted, session.pending()) is Some,
        replay(rolled_back(session.ted, session.pending())->0.text, first + second) is Some,
        replay(
            replay(rolled_back(session.ted, session.pending())->0.text, first)->0,
            survivors(first, session.pending()),
        ) is Some,
        replay_fits(
            replay(rolled_back(session.ted, session.pending())->0.text, first)->0,
            survivors(first, session.pending()),
        ),
    ensures
        session.receive(first + second).rebase() is Some,
        session.receive(first).rebase() is Some,
        session.receive(first).rebase()->0.synced().receive(second).rebase() is Some,
        session.receive(first).rebase()->0.synced().receive(second).rebase()->0.ted.text
            == session.receive(first + second).rebase()->0.ted.text,
        session.receive(first).rebase()->0.synced().receive(second).rebase()->0.pending()
            == session.receive(first + second).rebase()->0.pending(),
{
    let pending = session.pending();
    let ps = session.client.pending_queue as int;
    let base = rolled_back(session.ted, pending)->0;
    lemma_replay_concat(base.text, first, second);
    let between = replay(base.text, first)->0;
    let left = survivors(first, pending);
    // Both at once.
    let both = session.receive(first + second);
    assert(both.client.timeline.skip(both.client.last_sync as int) =~= first + second);
    assert(both.pending() == pending);
    lemma_rebase(both);
    // The first step.
    let one = session.receive(first);
    assert(one.client.timeline.skip(one.client.last_sync as int) =~= first);
    assert(one.pending() == pending);
    lemma_rebase(one);
    lemma_lenient_replay(between, left);
    let rebased = one.rebase()->0;
    lemma_rolled_back(session.ted, pending);
    let rolled = Session { ted: base, ..one };
    lemma_merge(rolled, first);
    lemma_merge_bounds(rolled, first);
    lemma_replay_bounds(rolled.merge(first)->0, ps);
    // The second step.
    let two = rebased.synced().receive(second);
    assert(two.client.timeline.skip(two.client.last_sync as int) =~= second);
    assert(two.pending() == left);
    lemma_roll_back(two.ted, between, left);
    lemma_rebase(two);
    lemma_carry_list_survivors(first, pending);
    lemma_carry_list_survivors(second, left);
    lemma_carry_list_survivors(first + second, pending);
    lemma_carry_list_concat(first, second, pending);
}

/// Agreement: a client has merged the timeline up to some version, and
/// the text that it has when its pending operations are taken back is the
/// text that the server had at that version. Since then the server has
/// accepted operations of other clients only. When the client now learns
/// of those operations and rebases, and the server processes the client's
/// pending operations, sent at that version, both come to the same text,
/// and the operations that the client keeps as pending are those that the
/// server appends to its timeline.
pub proof fn lemma_client_agrees_with_server(
    session: Session,
    server: ServerView,
    client_id: u32,
    synced_text: Seq<u8>,
)
    requires
        session.client.pending_queue <= session.client.op_queue <= session.ted.log.len(),
        session.client.last_sync == session.client.timeline.len(),
        server.versions.contains_key(client_id),
        session.client.timeline.len() < server.timeline.len(),
        forall|i: int|
            session.client.timeline.len() <= i < server.timeline.len() ==> (
            #[trigger] server.timeline[i]).0 != client_id,
        rolled_back(session.ted, session.pending()) matches Some(base) && base.text == synced_text,
        replay(synced_text, server.unseen(session.client.timeline.len() as int)) == Some(
            server.text,
        ),
    ensures
        session.receive(server.unseen(session.client.timeline.len() as int)).rebase() is Some,
        session.receive(server.unseen(session.client.timeline.len() as int)).rebase()->0.ted.text
            == process_all(
            server,
            client_id,
            session.client.timeline.len() as u64,
            session.pending(),
        ).text,
        entries_of(
            client_id,
            session.receive(
                server.unseen(session.client.timeline.len() as int),
            ).rebase()->0.pending(),
        ) == process_all(
            server,
            client_id,
            session.client.timeline.len() as u64,
            session.pending(),
        ).timeline.skip(server.timeline.len() as int),
{
    let version = session.client.timeline.len() as int;
    let remotes = server.unseen(version);
    let pending = session.pending();
    let received = session.receive(remotes);
    assert(received.client.timeline.skip(received.client.last_sync as int) =~= remotes);
    assert(remotes =~= timeline_ops(
        server.timeline.subrange(version, server.timeline.len() as int),
    ));
    assert(received.pending() == pending);
    lemma_rebase(received);
    lemma_process_all(
        server,
        client_id,
        version as u64,
        pending,
        server.timeline.len() as int,
    );
    let left = survivors(remotes, pending);
    let processed = process_all(server, client_id, version as u64, pending);
    assert(processed.timeline.skip(server.timeline.len() as int) =~= entries_of(
        client_id,
        lenient(server.text, left).1,
    ));
}

} // verus!

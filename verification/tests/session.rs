use ted::buffer_operator::BufferOperator;
use ted::cursor::Cursor;
use ted::error::Error;
use ted::operation::Operation;
use ted::ted::{Event, Ted};
use ted::ted_client::TedClient;
use ted::ted_server::{ClientData, Outgoing, Packet, PacketId, Request, Response, TedServer};

struct Peer {
    id: u32,
    client: TedClient,
    ted: Ted,
}

fn join(server: &mut TedServer, id: u32) -> Peer {
    let snapshot = server.join(id);
    let mut client = TedClient::new();
    let ted = client.download_buffer(snapshot.buffer, snapshot.timeline);
    Peer { id, client, ted }
}

fn text(ted: &Ted) -> String {
    ted.buffer().buffer().clone()
}

fn server_text(server: &TedServer) -> String {
    server.buffer().buffer().buffer().clone()
}

/// Sends what the peer has not sent yet and returns what the server sends.
fn submit(server: &mut TedServer, peer: &mut Peer) -> Vec<Outgoing> {
    let mut out = Vec::new();
    for request in peer.client.send_operations(&peer.ted) {
        out.extend(server.handle_packet(peer.id, request));
    }
    out
}

/// Hands the packets to the peers that they are for, in order.
fn deliver(peers: &mut [&mut Peer], out: Vec<Outgoing>) {
    for outgoing in out {
        let peer = peers.iter_mut().find(|p| p.id == outgoing.client_id).unwrap();
        peer.client.handle_packet(&mut peer.ted, outgoing.packet).unwrap();
    }
}

/// The text that the timeline makes of `base`.
fn replay(base: &str, server: &TedServer) -> String {
    let mut buf_op = BufferOperator::from_string(base.to_string());
    for (_, op) in server.timeline() {
        buf_op.do_operation(op).unwrap();
    }
    buf_op.buffer().buffer().clone()
}

#[test]
fn single_client_typing() {
    let mut server = TedServer::new(BufferOperator::new());
    let mut a = join(&mut server, 1);
    a.ted.handle_event(Event::Char('i')).unwrap();
    for event in [Event::Char('h'), Event::Char('i'), Event::Enter, Event::Char('!')] {
        a.ted.handle_event(event).unwrap();
        let out = submit(&mut server, &mut a);
        assert_eq!(out, vec![Outgoing { client_id: 1, packet: Packet::Response(Response::Op) }]);
        deliver(&mut [&mut a], out);
    }
    assert_eq!(server_text(&server), "hi\n!");
    assert_eq!(text(&a.ted), "hi\n!");
    assert_eq!(server.version(), 4);
    assert_eq!(server.timeline().len(), 4);
    assert_eq!(a.ted.log_len(), 4);
    assert_eq!(a.client.pending_queue(), 4);
    assert_eq!(a.client.op_queue(), 4);
    assert_eq!(a.client.last_sync(), 4);
    assert_eq!(a.client.version(), 4);
    assert_eq!(a.client.timeline(), &a.ted.log);
    assert_eq!(replay("", &server), "hi\n!");
}

#[test]
fn two_clients_non_overlapping() {
    let mut server = TedServer::new(BufferOperator::from_string("abcdef".to_string()));
    let mut a = join(&mut server, 1);
    let mut b = join(&mut server, 2);
    a.ted.apply_local_op(Operation::Insert(0, "X".to_string())).unwrap();
    b.ted.apply_local_op(Operation::Insert(6, "Y".to_string())).unwrap();
    let requests_a = a.client.send_operations(&a.ted);
    let requests_b = b.client.send_operations(&b.ted);
    assert_eq!(requests_a, vec![Request::Op(0, Operation::Insert(0, "X".to_string()))]);
    assert_eq!(requests_b, vec![Request::Op(0, Operation::Insert(6, "Y".to_string()))]);

    let mut out = Vec::new();
    for request in requests_a {
        out.extend(server.handle_packet(1, request));
    }
    assert_eq!(out, vec![
        Outgoing { client_id: 1, packet: Packet::Response(Response::Op) },
        Outgoing { client_id: 2, packet: Packet::Sync(vec![Operation::Insert(0, "X".to_string())]) },
    ]);
    for request in requests_b {
        out.extend(server.handle_packet(2, request));
    }
    assert_eq!(out[2..], [
        Outgoing { client_id: 2, packet: Packet::Response(Response::Op) },
        Outgoing { client_id: 1, packet: Packet::Sync(vec![Operation::Insert(7, "Y".to_string())]) },
    ]);
    assert_eq!(server_text(&server), "XabcdefY");
    deliver(&mut [&mut a, &mut b], out);
    assert_eq!(text(&a.ted), "XabcdefY");
    assert_eq!(text(&b.ted), "XabcdefY");
    assert_eq!(b.ted.log, vec![Operation::Insert(7, "Y".to_string())]);
    assert_eq!(b.client.pending_queue(), 1);
    assert_eq!(a.client.version(), 2);
    assert_eq!(b.client.version(), 2);
    assert_eq!(replay("abcdef", &server), "XabcdefY");
}

#[test]
fn concurrent_overlapping_deletes() {
    let mut server = TedServer::new(BufferOperator::from_string("abcdef".to_string()));
    let mut a = join(&mut server, 1);
    let mut b = join(&mut server, 2);
    a.ted.apply_local_op(Operation::Remove(1, 3, "bcd".to_string())).unwrap();
    b.ted.apply_local_op(Operation::Remove(2, 4, "cde".to_string())).unwrap();
    assert_eq!(text(&b.ted), "abf");
    let requests_a = a.client.send_operations(&a.ted);
    let requests_b = b.client.send_operations(&b.ted);
    let mut out = Vec::new();
    for request in requests_a {
        out.extend(server.handle_packet(1, request));
    }
    assert_eq!(server_text(&server), "aef");
    assert_eq!(server.timeline(), &vec![(1, Operation::Remove(1, 3, "bcd".to_string()))]);
    for request in requests_b {
        let answer = server.handle_packet(2, request);
        assert_eq!(answer, vec![]);
    }
    assert_eq!(server_text(&server), "aef");
    assert_eq!(server.version(), 1);
    deliver(&mut [&mut a, &mut b], out);
    assert_eq!(text(&a.ted), "aef");
    assert_eq!(text(&b.ted), "aef");
    assert_eq!(b.ted.log_len(), 0);
    assert_eq!(b.client.op_queue(), 0);
    assert_eq!(b.client.pending_queue(), 0);
}

#[test]
fn insert_before_pending_delete() {
    let mut server = TedServer::new(BufferOperator::from_string("hello".to_string()));
    let mut a = join(&mut server, 1);
    let mut b = join(&mut server, 2);
    b.ted.apply_local_op(Operation::Remove(4, 4, "o".to_string())).unwrap();
    assert_eq!(text(&b.ted), "hell");
    let requests_b = b.client.send_operations(&b.ted);
    a.ted.apply_local_op(Operation::Insert(0, "X".to_string())).unwrap();
    let out_a = submit(&mut server, &mut a);
    // B learns of the insertion while its removal is pending.
    let (for_a, for_b): (Vec<Outgoing>, Vec<Outgoing>) =
        out_a.into_iter().partition(|o| o.client_id == 1);
    assert_eq!(for_b, vec![
        Outgoing { client_id: 2, packet: Packet::Sync(vec![Operation::Insert(0, "X".to_string())]) },
    ]);
    deliver(&mut [&mut b], for_b);
    assert_eq!(text(&b.ted), "Xhell");
    assert_eq!(b.ted.log, vec![Operation::Remove(5, 5, "o".to_string())]);
    assert_eq!(b.client.pending_queue(), 0);
    // The server rewrites the removal in the same way.
    let mut out_b = Vec::new();
    for request in requests_b {
        out_b.extend(server.handle_packet(2, request));
    }
    assert_eq!(server_text(&server), "Xhell");
    assert_eq!(server.timeline()[1], (2, Operation::Remove(5, 5, "o".to_string())));
    deliver(&mut [&mut a, &mut b], for_a);
    deliver(&mut [&mut a, &mut b], out_b);
    assert_eq!(text(&a.ted), "Xhell");
    assert_eq!(text(&b.ted), "Xhell");
    assert_eq!(b.client.pending_queue(), 1);
}

#[test]
fn rebased_operation_is_sent_as_rewritten() {
    let mut server = TedServer::new(BufferOperator::from_string("hello".to_string()));
    let mut a = join(&mut server, 1);
    let mut b = join(&mut server, 2);
    b.ted.apply_local_op(Operation::Remove(4, 4, "o".to_string())).unwrap();
    a.ted.apply_local_op(Operation::Insert(0, "X".to_string())).unwrap();
    let out_a = submit(&mut server, &mut a);
    deliver(&mut [&mut a, &mut b], out_a);
    let requests_b = b.client.send_operations(&b.ted);
    assert_eq!(requests_b, vec![Request::Op(1, Operation::Remove(5, 5, "o".to_string()))]);
    let mut out_b = Vec::new();
    for request in requests_b {
        out_b.extend(server.handle_packet(2, request));
    }
    deliver(&mut [&mut a, &mut b], out_b);
    assert_eq!(server_text(&server), "Xhell");
    assert_eq!(text(&a.ted), "Xhell");
    assert_eq!(text(&b.ted), "Xhell");
}

#[test]
fn join_time_snapshot() {
    let mut server = TedServer::new(BufferOperator::new());
    let mut a = join(&mut server, 1);
    a.ted.handle_event(Event::Char('i')).unwrap();
    for c in ['h', 'i'] {
        a.ted.handle_event(Event::Char(c)).unwrap();
        let out = submit(&mut server, &mut a);
        deliver(&mut [&mut a], out);
    }
    assert_eq!(server_text(&server), "hi");
    assert_eq!(server.version(), 2);

    let snapshot = server.join(3);
    assert_eq!(snapshot.buffer, "hi");
    assert_eq!(snapshot.timeline, vec![
        (1, Operation::InsertChar(0, 'h')),
        (1, Operation::InsertChar(1, 'i')),
    ]);
    assert_eq!(server.client_version(3), Some(2));
    let mut client = TedClient::new();
    let ted = client.download_buffer(snapshot.buffer, snapshot.timeline);
    let mut c = Peer { id: 3, client, ted };
    assert_eq!(c.client.version(), 2);
    assert_eq!(c.client.last_sync(), 2);
    assert_eq!(text(&c.ted), "hi");
    assert_eq!(c.ted.height, 1);

    c.ted.apply_local_op(Operation::Insert(2, "!".to_string())).unwrap();
    let requests = c.client.send_operations(&c.ted);
    assert_eq!(requests, vec![Request::Op(2, Operation::Insert(2, "!".to_string()))]);
    let mut out = Vec::new();
    for request in requests {
        out.extend(server.handle_packet(3, request));
    }
    assert_eq!(server_text(&server), "hi!");
    assert_eq!(server.timeline()[2], (3, Operation::Insert(2, "!".to_string())));
    deliver(&mut [&mut a, &mut c], out);
    assert_eq!(text(&a.ted), "hi!");
    assert_eq!(text(&c.ted), "hi!");
}

#[test]
fn disconnection_mid_flight() {
    let mut server = TedServer::new(BufferOperator::new());
    let mut a = join(&mut server, 1);
    let mut b = join(&mut server, 2);
    // B gets one operation acknowledged.
    b.ted.apply_local_op(Operation::Insert(0, "b".to_string())).unwrap();
    let out = submit(&mut server, &mut b);
    deliver(&mut [&mut a, &mut b], out);
    assert_eq!(text(&a.ted), "b");
    // Both make three operations; those of B never reach the server.
    for c in ['1', '2', '3'] {
        a.ted.apply_local_op(Operation::InsertChar(0, c)).unwrap();
        b.ted.apply_local_op(Operation::InsertChar(1, c)).unwrap();
    }
    assert_eq!(a.ted.log_len() - a.client.pending_queue(), 3);
    assert_eq!(b.ted.log_len() - b.client.pending_queue(), 3);
    let requests_a = a.client.send_operations(&a.ted);
    server.disconnect(2);
    assert_eq!(server.client_version(2), None);
    assert_eq!(server.client_version(1), Some(1));

    let mut out = Vec::new();
    for request in requests_a {
        out.extend(server.handle_packet(1, request));
    }
    assert!(out.iter().all(|o| o.client_id == 1));
    assert_eq!(out.len(), 3);
    deliver(&mut [&mut a], out);
    assert_eq!(server_text(&server), "321b");
    assert_eq!(text(&a.ted), "321b");
    assert_eq!(server.timeline(), &vec![
        (2, Operation::Insert(0, "b".to_string())),
        (1, Operation::InsertChar(0, '1')),
        (1, Operation::InsertChar(0, '2')),
        (1, Operation::InsertChar(0, '3')),
    ]);
    assert_eq!(replay("", &server), "321b");
    // Requests of the client that left are ignored.
    let late = server.handle_packet(2, Request::Op(1, Operation::InsertChar(1, '1')));
    assert_eq!(late, vec![]);
    assert_eq!(server.version(), 4);
    // A client that joins later still sees what B did.
    let d = join(&mut server, 4);
    assert_eq!(d.client.timeline()[0], Operation::Insert(0, "b".to_string()));
    assert_eq!(text(&d.ted), "321b");
}

#[test]
fn timeline_replays_to_the_server_text() {
    let mut server = TedServer::new(BufferOperator::from_string("base\n".to_string()));
    let mut a = join(&mut server, 1);
    let mut b = join(&mut server, 2);
    let mut c = join(&mut server, 3);
    a.ted.apply_local_op(Operation::Insert(5, "from a".to_string())).unwrap();
    b.ted.apply_local_op(Operation::Remove(0, 1, "ba".to_string())).unwrap();
    c.ted.apply_local_op(Operation::InsertChar(2, '-')).unwrap();
    a.ted.apply_local_op(Operation::RemoveChar(0, 'b')).unwrap();
    b.ted.apply_local_op(Operation::InsertChar(0, '>')).unwrap();
    let out_c = submit(&mut server, &mut c);
    let out_b = submit(&mut server, &mut b);
    let out_a = submit(&mut server, &mut a);
    assert_eq!(replay("base\n", &server), server_text(&server));
    let mut all = out_c;
    all.extend(out_b);
    all.extend(out_a);
    deliver(&mut [&mut a, &mut b, &mut c], all);
    assert_eq!(server_text(&server), ">-se\nfrom a");
    assert_eq!(text(&a.ted), server_text(&server));
    assert_eq!(text(&b.ted), server_text(&server));
    assert_eq!(text(&c.ted), server_text(&server));
    assert_eq!(a.client.timeline().len(), server.version() as usize);
    assert_eq!(b.client.timeline().len(), server.version() as usize);
    assert_eq!(c.client.timeline().len(), server.version() as usize);
}

#[test]
fn server_ignores_commands_and_unknown_clients() {
    let mut server = TedServer::new(BufferOperator::from_string("abc".to_string()));
    let _a = join(&mut server, 1);
    assert_eq!(server.handle_packet(1, Request::Command(0, "w".to_string())), vec![]);
    assert_eq!(server.handle_packet(9, Request::Op(0, Operation::InsertChar(0, 'x'))), vec![]);
    assert_eq!(server.process_operation(9, 0, Operation::InsertChar(0, 'x')), vec![]);
    assert_eq!(server_text(&server), "abc");
    assert_eq!(server.version(), 0);
}

#[test]
fn server_drops_what_it_cannot_execute() {
    let mut server = TedServer::new(BufferOperator::from_string("abc".to_string()));
    let _a = join(&mut server, 1);
    // An offset beyond the text.
    assert_eq!(server.process_operation(1, 0, Operation::InsertChar(9, 'x')), vec![]);
    // A removal that names other text than is there.
    assert_eq!(server.process_operation(1, 0, Operation::RemoveChar(0, 'x')), vec![]);
    // A version that the timeline has not reached.
    assert_eq!(server.process_operation(1, 5, Operation::InsertChar(0, 'x')), vec![]);
    assert_eq!(server_text(&server), "abc");
    assert_eq!(server.version(), 0);
    assert_eq!(
        server.process_operation(1, 0, Operation::InsertChar(3, 'd')),
        vec![Outgoing { client_id: 1, packet: Packet::Response(Response::Op) }]
    );
    assert_eq!(server_text(&server), "abcd");
}

#[test]
fn server_syncs_clients_that_are_behind() {
    let mut server = TedServer::new(BufferOperator::new());
    let _a = join(&mut server, 1);
    let _b = join(&mut server, 2);
    let _c = join(&mut server, 3);
    let out = server.process_operation(1, 0, Operation::InsertChar(0, 'x'));
    assert_eq!(out.len(), 3);
    assert_eq!(out[0], Outgoing { client_id: 1, packet: Packet::Response(Response::Op) });
    let mut others: Vec<u32> = out[1..].iter().map(|o| o.client_id).collect();
    others.sort();
    assert_eq!(others, vec![2, 3]);
    for o in &out[1..] {
        assert_eq!(o.packet, Packet::Sync(vec![Operation::InsertChar(0, 'x')]));
        assert!(o.packet.id() == PacketId::Sync);
    }
    assert!(out[0].packet.id() == PacketId::Response);
    // Everyone has been told: nothing is left to send.
    assert_eq!(server.sync_all_clients(None), vec![]);
    assert_eq!(server.sync_client(2), None);
    assert_eq!(server.sync_client(7), None);
    assert_eq!(server.client_version(3), Some(1));
    assert_eq!(ClientData::new(4).version, 4);
}

#[test]
fn client_refuses_an_acknowledgement_of_nothing() {
    let mut client = TedClient::new();
    let mut ted = client.download_buffer("abc".to_string(), vec![]);
    assert_eq!(
        client.handle_packet(&mut ted, Packet::Response(Response::Op)),
        Err(Error::DecodeError)
    );
    ted.apply_local_op(Operation::InsertChar(0, 'x')).unwrap();
    // Made, but not sent yet.
    assert_eq!(client.handle_response_packet(&ted, Response::Op), Err(Error::DecodeError));
    let _ = client.send_operations(&ted);
    assert_eq!(client.handle_response_packet(&ted, Response::Op), Ok(()));
    assert_eq!(client.pending_queue(), 1);
    assert_eq!(client.timeline(), &vec![Operation::InsertChar(0, 'x')]);
}

#[test]
fn client_refuses_a_sync_that_does_not_fit_the_text() {
    let mut client = TedClient::new();
    let mut ted = client.download_buffer("abc".to_string(), vec![]);
    assert_eq!(
        client.handle_sync_packet(&mut ted, vec![Operation::RemoveChar(0, 'x')]),
        Err(Error::OutOfRange)
    );
    assert_eq!(text(&ted), "abc");
}

#[test]
fn client_rebase_drops_what_is_no_longer_legal() {
    let mut client = TedClient::new();
    let mut ted = client.download_buffer("xab".to_string(), vec![]);
    ted.apply_local_op(Operation::RemoveChar(2, 'b')).unwrap();
    ted.apply_local_op(Operation::InsertChar(0, '>')).unwrap();
    let _ = client.send_operations(&ted);
    // Another client has removed the `a` that the pending removal follows:
    // rewritten, the removal would take the wrong character.
    assert_eq!(client.handle_sync_packet(&mut ted, vec![Operation::Insert(1, "aa".to_string())]), Ok(()));
    assert_eq!(text(&ted), ">xaaa");
    assert_eq!(ted.log, vec![Operation::RemoveChar(4, 'b'), Operation::InsertChar(0, '>')]);
    let mut client = TedClient::new();
    let mut ted = client.download_buffer("xab".to_string(), vec![]);
    ted.apply_local_op(Operation::InsertChar(3, 'c')).unwrap();
    ted.apply_local_op(Operation::RemoveChar(3, 'c')).unwrap();
    ted.apply_local_op(Operation::InsertChar(0, '>')).unwrap();
    let _ = client.send_operations(&ted);
    assert_eq!(client.op_queue(), 3);
    assert_eq!(client.handle_sync_packet(&mut ted, vec![Operation::RemoveChar(0, 'x')]), Ok(()));
    // The insertion moves to offset 2, the removal of what it inserted to
    // offset 2 as well, and the last insertion stays.
    assert_eq!(ted.log, vec![
        Operation::InsertChar(2, 'c'),
        Operation::RemoveChar(2, 'c'),
        Operation::InsertChar(0, '>'),
    ]);
    assert_eq!(text(&ted), ">ab");
    assert_eq!(client.last_sync(), 1);
    assert_eq!(client.version(), 1);
}

#[test]
fn client_sends_each_command_once() {
    let mut client = TedClient::new();
    let mut ted = client.download_buffer("abc".to_string(), vec![(1, Operation::InsertChar(0, 'a'))]);
    ted.execute_command("w out".to_string());
    ted.execute_command("q".to_string());
    assert_eq!(client.send_commands(&ted), vec![
        Request::Command(1, "w out".to_string()),
        Request::Command(1, "q".to_string()),
    ]);
    assert_eq!(client.cmd_queue(), 2);
    assert_eq!(client.send_commands(&ted), vec![]);
    assert_eq!(client.send_operations(&ted), vec![]);
    client.cursor_moved(&Cursor { line: 0, column: 0, buf_index: 0 });
    assert_eq!(client.cmd_queue(), 2);
}

#[test]
fn well_formedness_can_be_tested() {
    let mut client = TedClient::new();
    let mut ted = client.download_buffer("abc".to_string(), vec![]);
    assert!(ted.is_wf());
    assert!(client.is_wf(&ted));
    ted.apply_local_op(Operation::InsertChar(0, 'x')).unwrap();
    let _ = client.send_operations(&ted);
    assert!(client.is_wf(&ted));
    let _ = ted.remove_log_entry(0);
    assert!(!client.is_wf(&ted));
    ted.cursor.buf_index = 9;
    assert!(!ted.is_wf());
    assert!(!ted.cursor.is_within(ted.buffer()));
    ted.cursor = Cursor { line: 3, column: 0, buf_index: 0 };
    assert!(!ted.is_wf());
}

#[test]
fn merge_without_news_changes_nothing() {
    let mut client = TedClient::new();
    let mut ted = client.download_buffer("abc".to_string(), vec![]);
    ted.apply_local_op(Operation::InsertChar(0, 'x')).unwrap();
    assert_eq!(client.merge_synced_ops(&mut ted), Ok(()));
    assert_eq!(client.handle_sync_packet(&mut ted, vec![]), Ok(()));
    assert_eq!(text(&ted), "xabc");
    assert_eq!(ted.log_len(), 1);
}

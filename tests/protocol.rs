use kademlia::guid::{GUID, GUID_LEN};
use kademlia::message::{FindValue, Message, MessageType, Request, Response};
use kademlia::node::{Handled, Location, Lookup, Node};
use kademlia::rpc::{dispatch, Inbound, PendingTable};

fn loc(port: u16) -> Location {
    Location::new("127.0.0.1".to_string(), port)
}

/// Runs, on behalf of `runner`, a lookup that `asker` asked for: each peer asked answers
/// with the result of its own lookup.
fn drive(nodes: &mut Vec<Node>, runner: &Location, asker: &Location, mut l: Lookup) -> MessageType {
    let mut rounds = 0;
    while !l.is_done() {
        rounds += 1;
        assert!(rounds < 50);
        let q = l.next_round(asker);
        let mut replies = Vec::new();
        for p in q.iter() {
            let pos = nodes.iter().position(|n| n.location == *p);
            match pos {
                Some(i) => {
                    let h = nodes[i].handle_req(Request::FindNode(l.target), runner);
                    match h {
                        Handled::Search(inner) => {
                            let res = drive_leaf(runner, inner);
                            replies.push(Some(res));
                        }
                        Handled::Reply(_) => panic!("a node query starts a lookup"),
                    }
                }
                None => replies.push(None),
            }
        }
        l.absorb(q, replies);
    }
    l.finish()
}

/// A peer's own lookup for `asker`, where no further peer answers.
fn drive_leaf(asker: &Location, mut l: Lookup) -> Vec<Location> {
    while !l.is_done() {
        let q = l.next_round(asker);
        let replies = q.iter().map(|_| None).collect();
        l.absorb(q, replies);
    }
    match l.finish() {
        MessageType::Response(Response::FindNode(v)) => v,
        _ => panic!("a node lookup ends in a node response"),
    }
}

#[test]
fn ping_answers_pong() {
    let mut a = Node::new(loc(7000), None);
    let h = a.handle_req(Request::Ping, &loc(7001));
    assert!(matches!(h, Handled::Reply(MessageType::Response(Response::Pong))));
}

#[test]
fn join_then_find_node_from_third_peer() {
    let la = loc(7100);
    let lb = loc(7101);
    let lc = loc(7102);
    let mut a = Node::new(la.clone(), None);
    let mut b = Node::new(lb.clone(), Some(la.clone()));
    // B joins through A, and A answers.
    let h = a.handle_req(Request::Join, &lb);
    assert!(matches!(h, Handled::Reply(MessageType::Response(Response::Join))));
    b.record_reply(la.clone(), true);
    let all = |n: &Node| -> Vec<Location> { n.routing_table.0.iter().flat_map(|x| x.0.clone()).collect() };
    assert_eq!(all(&a), vec![lb.clone()]);
    assert_eq!(all(&b), vec![la.clone()]);
    // C asks A for B.
    let h = a.handle_req(Request::FindNode(lb.id), &lc);
    let l = match h {
        Handled::Search(l) => l,
        Handled::Reply(_) => panic!("a node query starts a lookup"),
    };
    let mut nodes = vec![b];
    let res = drive(&mut nodes, &la, &lc, l);
    match res {
        MessageType::Response(Response::FindNode(v)) => assert!(v.contains(&lb)),
        _ => panic!("expected a node response"),
    }
}

#[test]
fn lookup_skips_the_asker_and_drops_silent_peers() {
    let la = loc(7200);
    let lb = loc(7201);
    let lc = loc(7202);
    let mut a = Node::new(la.clone(), Some(lb.clone()));
    a.record_reply(lc.clone(), true);
    let l = match a.handle_req(Request::FindNode(GUID([9; GUID_LEN])), &lc) {
        Handled::Search(l) => l,
        Handled::Reply(_) => panic!("a node query starts a lookup"),
    };
    assert_eq!(l.frontier.len(), 2);
    let mut nodes: Vec<Node> = Vec::new();
    match drive(&mut nodes, &la, &lc, l) {
        MessageType::Response(Response::FindNode(v)) => assert!(v.is_empty()),
        _ => panic!("expected a node response"),
    }
}

#[test]
fn store_then_find_value() {
    let la = loc(7300);
    let lb = loc(7301);
    let client = loc(7302);
    let mut a = Node::new(la.clone(), Some(lb.clone()));
    let h = a.handle_req(Request::Store("k".to_string(), "v".to_string()), &client);
    assert!(matches!(h, Handled::Reply(MessageType::Response(Response::Store))));
    match a.handle_req(Request::FindValue("k".to_string()), &client) {
        Handled::Reply(MessageType::Response(Response::FindValue(FindValue::Value(v)))) => assert_eq!(v, "v"),
        _ => panic!("expected the stored value"),
    }
    // a later store replaces the value
    a.handle_req(Request::Store("k".to_string(), "w".to_string()), &client);
    match a.handle_req(Request::FindValue("k".to_string()), &client) {
        Handled::Reply(MessageType::Response(Response::FindValue(FindValue::Value(v)))) => assert_eq!(v, "w"),
        _ => panic!("expected the stored value"),
    }
    let l = match a.handle_req(Request::FindValue("missing".to_string()), &client) {
        Handled::Search(l) => l,
        Handled::Reply(_) => panic!("a missing key starts a lookup"),
    };
    assert!(l.for_value);
    assert_eq!(l.target, GUID::new("missing".to_string()));
    assert_eq!(l.frontier, vec![lb.clone()]);
    let b = Node::new(lb.clone(), Some(la.clone()));
    let mut nodes = vec![b];
    match drive(&mut nodes, &la, &client, l) {
        MessageType::Response(Response::FindValue(FindValue::ClosestNodes(v))) => assert_eq!(v, vec![lb]),
        _ => panic!("expected the closest nodes"),
    }
}

#[test]
fn timeout_drops_peer() {
    let la = loc(7400);
    let lb = loc(7401);
    let mut a = Node::new(la, Some(lb.clone()));
    a.record_reply(lb, false);
    assert!(a.routing_table.0.iter().all(|b| b.0.is_empty()));
}

#[test]
fn next_round_takes_three_from_the_end() {
    let asker = loc(7500);
    let mut l = Lookup {
        target: GUID([0; GUID_LEN]),
        for_value: false,
        frontier: vec![loc(1), loc(2), asker.clone(), loc(3), loc(4)],
        result: Vec::new(),
        asked: Vec::new(),
    };
    let q = l.next_round(&asker);
    assert_eq!(q, vec![loc(4), loc(3)]);
    assert_eq!(l.frontier, vec![loc(1), loc(2)]);
    l.absorb(q, vec![None, Some(vec![loc(5)])]);
    assert_eq!(l.result, vec![loc(3)]);
    assert_eq!(l.frontier, vec![loc(1), loc(2), loc(5)]);
    assert_eq!(l.asked, vec![loc(4).id, loc(3).id]);
}

#[test]
fn lookup_does_not_ask_a_peer_twice() {
    let asker = loc(7550);
    let mut l = Lookup {
        target: GUID([0; GUID_LEN]),
        for_value: false,
        frontier: vec![loc(1)],
        result: Vec::new(),
        asked: Vec::new(),
    };
    let q = l.next_round(&asker);
    assert_eq!(q, vec![loc(1)]);
    // the peer names itself and another peer
    l.absorb(q, vec![Some(vec![loc(2), loc(1)])]);
    let q = l.next_round(&asker);
    assert_eq!(q, vec![loc(2)]);
    l.absorb(q, vec![Some(vec![loc(1)])]);
    let q = l.next_round(&asker);
    assert!(q.is_empty());
    l.absorb(q, Vec::new());
    assert!(l.is_done());
    match l.finish() {
        MessageType::Response(Response::FindNode(v)) => assert_eq!(v, vec![loc(1), loc(2)]),
        _ => panic!("expected a node response"),
    }
}

#[test]
fn pending_request_is_delivered_once() {
    let mut p: PendingTable<u32> = PendingTable::new();
    p.insert("other".to_string(), 1);
    let before = p.len();
    p.insert("req".to_string(), 7);
    assert_eq!(p.len(), before + 1);
    assert_eq!(p.take(&"req".to_string()), Some(7));
    assert_eq!(p.len(), before);
    assert_eq!(p.take(&"req".to_string()), None);
    assert_eq!(p.get(&"other".to_string()), Some(&1));
}

#[test]
fn dispatch_sorts_messages() {
    let a = loc(7600);
    let b = loc(7601);
    let req = Message::new_res("x".to_string(), MessageType::Request(Request::Ping), a.clone(), b.clone());
    assert!(matches!(dispatch(req), Inbound::Handle(_)));
    let res = Message::new_res("y".to_string(), MessageType::Response(Response::Pong), a.clone(), b.clone());
    match dispatch(res) {
        Inbound::Deliver(id, Response::Pong) => assert_eq!(id, "y"),
        _ => panic!("expected a delivery"),
    }
    let t = Message::new_res("z".to_string(), MessageType::Terminate, a, b);
    assert!(matches!(dispatch(t), Inbound::Stop(_)));
}

#[test]
fn request_id_digests_peers_and_time() {
    let a = loc(7700);
    let b = loc(7701);
    let m = Message::new_req_at(MessageType::Request(Request::Ping), a.clone(), b.clone(), -42);
    let seed = format!("{}:{}:{}", a.id.to_hex(), b.id.to_hex(), -42);
    assert_eq!(m.id, GUID::new(seed).to_hex());
    assert_eq!(m.source, a);
    assert_eq!(m.dist, b);
    let n = Message::new_req(MessageType::Request(Request::Ping), a.clone(), b.clone());
    assert_eq!(n.id.len(), 64);
}

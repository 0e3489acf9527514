use gossip_node::addr::{parse_addr, PeerAddr};
use gossip_node::command::{decode, encode, Command};
use gossip_node::node::{Datagram, Node};

fn local(port: u16) -> PeerAddr {
    PeerAddr::new(127, 0, 0, 1, port)
}

fn deliver(node: &mut Node, d: &Datagram, from: PeerAddr) -> Vec<Datagram> {
    node.execute_command(&d.payload, from).1
}

#[test]
fn two_nodes_join_and_leave() {
    let a_addr = local(9001);
    let b_addr = local(9002);
    let mut a = Node::new(9001, 1);
    let mut b = Node::new(9002, 1);
    let out = b.start(Some(a_addr));
    assert_eq!(out.len(), 1);
    assert_eq!(out[0].dest, a_addr);
    assert_eq!(out[0].payload, b"list".to_vec());
    let replies = deliver(&mut a, &out[0], b_addr);
    assert!(replies.is_empty());
    assert_eq!(a.peers(), vec![b_addr]);
    assert_eq!(b.peers(), vec![a_addr]);
    let stop = b.shutdown();
    assert_eq!(stop.len(), 1);
    assert_eq!(stop[0].dest, a_addr);
    assert_eq!(stop[0].payload, b"stop".to_vec());
    deliver(&mut a, &stop[0], b_addr);
    assert!(a.peers().is_empty());
}

#[test]
fn join_symmetry() {
    let mut a = Node::new(7000, 5);
    let mut b = Node::new(7001, 5);
    let out = b.start(Some(local(7000)));
    deliver(&mut a, &out[0], local(7001));
    assert!(a.peers().contains(&local(7001)));
    assert!(b.peers().contains(&local(7000)));
}

#[test]
fn transitive_introduction() {
    let (a_addr, b_addr, c_addr) = (local(8001), local(8002), local(8003));
    let mut a = Node::new(8001, 1);
    let mut b = Node::new(8002, 1);
    let mut c = Node::new(8003, 1);
    let out = c.start(Some(a_addr));
    deliver(&mut a, &out[0], c_addr);
    let out = b.start(Some(a_addr));
    let answers = deliver(&mut a, &out[0], b_addr);
    assert_eq!(answers.len(), 1);
    assert_eq!(answers[0].dest, b_addr);
    assert_eq!(answers[0].payload, b"list_response 127.0.0.1:8003".to_vec());
    let news = deliver(&mut b, &answers[0], a_addr);
    assert_eq!(news.len(), 1);
    assert_eq!(news[0].dest, c_addr);
    assert_eq!(news[0].payload, b"new".to_vec());
    deliver(&mut c, &news[0], b_addr);
    assert_eq!(b.peers(), vec![a_addr, c_addr]);
    assert_eq!(c.peers(), vec![a_addr, b_addr]);
    assert_eq!(a.peers(), vec![c_addr, b_addr]);
}

#[test]
fn list_answers_once_per_entry_with_duplicates() {
    let mut a = Node::new(1, 1);
    let x = local(5000);
    let y = PeerAddr::new(10, 0, 0, 2, 6000);
    a.handle(&Command::New, x);
    a.handle(&Command::New, x);
    a.handle(&Command::New, y);
    let asker = local(5999);
    let out = a.handle(&Command::List, asker);
    assert_eq!(out.len(), 3);
    for d in &out {
        assert_eq!(d.dest, asker);
    }
    assert_eq!(out[0].payload, b"list_response 127.0.0.1:5000".to_vec());
    assert_eq!(out[1].payload, b"list_response 127.0.0.1:5000".to_vec());
    assert_eq!(out[2].payload, b"list_response 10.0.0.2:6000".to_vec());
    assert_eq!(a.peers(), vec![x, x, y, asker]);
}

#[test]
fn list_on_empty_registry_sends_nothing() {
    let mut a = Node::new(1, 1);
    let out = a.handle(&Command::List, local(2));
    assert!(out.is_empty());
    assert_eq!(a.peers(), vec![local(2)]);
}

#[test]
fn stop_removes_every_matching_entry() {
    let mut a = Node::new(1, 1);
    let x = local(4000);
    let y = local(4001);
    a.handle(&Command::New, x);
    a.handle(&Command::New, y);
    a.handle(&Command::New, x);
    let out = a.handle(&decode(b"stop"), x);
    assert!(out.is_empty());
    assert_eq!(a.peers(), vec![y]);
}

#[test]
fn silent_peer_stays_and_is_still_gossiped_to() {
    let mut a = Node::new(1, 1);
    let gone = local(4100);
    let other = local(4101);
    a.handle(&Command::New, gone);
    a.handle(&Command::New, other);
    a.handle(&decode(b"msg hello"), other);
    a.handle(&decode(b"stop"), other);
    a.handle(&decode(b"bogus"), local(4102));
    assert_eq!(a.peers(), vec![gone]);
    let out = a.gossip_round(3);
    assert_eq!(out.len(), 1);
    assert_eq!(out[0].dest, gone);
}

#[test]
fn gossip_fan_out_same_payload() {
    let mut a = Node::new(1, 1);
    let peers = vec![local(1), local(2), local(1)];
    for p in &peers {
        a.handle(&Command::New, *p);
    }
    let out = a.gossip_round(-42);
    assert_eq!(out.len(), 3);
    for (d, p) in out.iter().zip(peers.iter()) {
        assert_eq!(d.dest, *p);
        assert_eq!(d.payload, b"msg -42".to_vec());
    }
    let out = a.gossip_round(i32::MIN);
    assert_eq!(out[0].payload, b"msg -2147483648".to_vec());
    let out = a.gossip_round(0);
    assert_eq!(out[0].payload, b"msg 0".to_vec());
}

#[test]
fn gossip_tick_sends_one_msg_per_peer() {
    let mut a = Node::new(1, 1);
    a.handle(&Command::New, local(1));
    a.handle(&Command::New, local(2));
    let out = a.gossip_tick();
    assert_eq!(out.len(), 2);
    assert_eq!(out[0].payload, out[1].payload);
    assert!(out[0].payload.starts_with(b"msg "));
    match decode(&out[0].payload) {
        Command::Msg(p) => assert!(std::str::from_utf8(&p).unwrap().parse::<i32>().is_ok()),
        other => panic!("unexpected {:?}", other),
    }
}

#[test]
fn shutdown_sends_stop_once() {
    let mut a = Node::new(1, 1);
    a.handle(&Command::New, local(1));
    a.handle(&Command::New, local(2));
    assert!(a.is_alive());
    let out = a.shutdown();
    assert!(!a.is_alive());
    assert_eq!(out.len(), 2);
    assert_eq!(out[0].dest, local(1));
    assert_eq!(out[1].dest, local(2));
    assert_eq!(out[1].payload, b"stop".to_vec());
    assert!(a.shutdown().is_empty());
    assert_eq!(a.peers().len(), 2);
}

#[test]
fn start_without_bootstrap() {
    let mut a = Node::new(9100, 3);
    assert!(a.start(None).is_empty());
    assert!(a.peers().is_empty());
    assert_eq!(a.port(), 9100);
    assert_eq!(a.period(), 3);
}

#[test]
fn list_response_records_and_greets() {
    let mut b = Node::new(1, 1);
    let out = b.handle(&decode(b"list_response 192.168.1.20:65535"), local(9));
    let named = PeerAddr::new(192, 168, 1, 20, 65535);
    assert_eq!(b.peers(), vec![named]);
    assert_eq!(out.len(), 1);
    assert_eq!(out[0].dest, named);
    assert_eq!(out[0].payload, b"new".to_vec());
}

#[test]
fn malformed_list_response_is_dropped() {
    let mut b = Node::new(1, 1);
    let cmd = decode(b"list_response not-an-address");
    match &cmd {
        Command::BadAddress(p) => assert_eq!(p, &b"not-an-address".to_vec()),
        other => panic!("unexpected {:?}", other),
    }
    assert!(b.handle(&cmd, local(9)).is_empty());
    assert!(b.peers().is_empty());
}

#[test]
fn decode_verbs() {
    assert!(matches!(decode(b"new"), Command::New));
    assert!(matches!(decode(b"list"), Command::List));
    assert!(matches!(decode(b"stop"), Command::Stop));
    match decode(b"msg a b c") {
        Command::Msg(p) => assert_eq!(p, b"a b c".to_vec()),
        other => panic!("unexpected {:?}", other),
    }
    match decode(b"msg ") {
        Command::Msg(p) => assert!(p.is_empty()),
        other => panic!("unexpected {:?}", other),
    }
    match decode(b"new x") {
        Command::Unknown(v) => assert_eq!(v, b"new".to_vec()),
        other => panic!("unexpected {:?}", other),
    }
    match decode(b"hello") {
        Command::Unknown(v) => assert_eq!(v, b"hello".to_vec()),
        other => panic!("unexpected {:?}", other),
    }
    match decode(b"") {
        Command::Unknown(v) => assert!(v.is_empty()),
        other => panic!("unexpected {:?}", other),
    }
    match decode(b"list_response 1.2.3.4:5") {
        Command::ListResponse(a) => assert_eq!(a, PeerAddr::new(1, 2, 3, 4, 5)),
        other => panic!("unexpected {:?}", other),
    }
}

#[test]
fn encode_round_trips() {
    let a = PeerAddr::new(255, 0, 10, 99, 1234);
    assert_eq!(encode(&Command::ListResponse(a)), b"list_response 255.0.10.99:1234".to_vec());
    assert_eq!(encode(&Command::Msg(b"7".to_vec())), b"msg 7".to_vec());
    assert_eq!(encode(&Command::New), b"new".to_vec());
    assert_eq!(encode(&Command::List), b"list".to_vec());
    assert_eq!(encode(&Command::Stop), b"stop".to_vec());
    match decode(&encode(&Command::ListResponse(a))) {
        Command::ListResponse(b) => assert_eq!(a, b),
        other => panic!("unexpected {:?}", other),
    }
}

#[test]
fn address_text_and_parse() {
    let a = PeerAddr::new(127, 0, 0, 1, 9001);
    assert_eq!(a.to_text(), b"127.0.0.1:9001".to_vec());
    assert_eq!(parse_addr(b"127.0.0.1:9001"), Some(a));
    assert_eq!(parse_addr(b"0.0.0.0:0"), Some(PeerAddr::new(0, 0, 0, 0, 0)));
    assert_eq!(parse_addr(b"255.255.255.255:65535"), Some(PeerAddr::new(255, 255, 255, 255, 65535)));
}

#[test]
fn address_parse_rejects() {
    let bad: [&[u8]; 12] = [
        b"",
        b"127.0.0.1",
        b"127.0.0.1:",
        b"256.0.0.1:80",
        b"1.2.3.4:65536",
        b"01.2.3.4:80",
        b"1.2.3.4:080",
        b"1.2.3:80",
        b"1.2.3.4.5:80",
        b"1.2.3.4:80 ",
        b"a.b.c.d:80",
        b"1.2.3.4:99999999999",
    ];
    for text in bad.iter() {
        assert_eq!(parse_addr(text), None);
    }
}

#[test]
fn execute_command_reports_what_it_decoded() {
    let mut a = Node::new(1, 1);
    let (cmd, out) = a.execute_command(b"msg 17", local(3));
    match cmd {
        Command::Msg(p) => assert_eq!(p, b"17".to_vec()),
        other => panic!("unexpected {:?}", other),
    }
    assert!(out.is_empty());
    assert!(a.peers().is_empty());
    let (cmd, out) = a.execute_command(b"new", local(3));
    assert!(matches!(cmd, Command::New));
    assert!(out.is_empty());
    assert_eq!(a.peers(), vec![local(3)]);
}

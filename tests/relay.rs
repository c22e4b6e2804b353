use ws_relay::{
    Acceptor, Client, ClientId, Connection, Event, Frame, Hub, Input, NewMessage, NewUser, Phase,
    Step,
};

type Mailbox = Vec<String>;

fn register(hub: &mut Hub<Mailbox>, conn: &mut Connection) {
    let event = conn.step(Input::Handshaken(Mailbox::new())).expect("handshake gives an event");
    match hub.handle_event(event) {
        Step::Registered(id) => assert_eq!(id, conn.id),
        _ => panic!("expected a registration"),
    }
}

/// Runs one broadcast to the end, every write succeeding.
fn deliver(hub: &mut Hub<Mailbox>, event: Event<Mailbox>) -> Vec<ClientId> {
    match hub.handle_event(event) {
        Step::Broadcast { text, recipients } => {
            let mut ids = Vec::new();
            let mut results = Vec::new();
            for mut c in recipients {
                ids.push(c.id);
                c.handle.push(text.clone());
                results.push((c, true));
            }
            hub.finish_broadcast(results);
            ids.sort();
            ids
        }
        _ => panic!("expected a broadcast"),
    }
}

fn text(s: &str) -> Input<Mailbox> {
    Input::Received(Frame::Text(s.to_string()))
}

#[test]
fn three_clients_one_message() {
    let mut acceptor = Acceptor::new();
    let mut hub: Hub<Mailbox> = Hub::new();
    let mut conns = Vec::new();
    for _ in 0..3 {
        let id = acceptor.on_accept(true).unwrap();
        let mut c = Connection::new(id);
        register(&mut hub, &mut c);
        conns.push(c);
    }
    assert_eq!(conns.iter().map(|c| c.id).collect::<Vec<_>>(), vec![0, 1, 2]);
    let event = conns[0].step(text("hi")).unwrap();
    assert_eq!(deliver(&mut hub, event), vec![1, 2]);
    assert_eq!(hub.get(0).unwrap(), &Vec::<String>::new());
    assert_eq!(hub.get(1).unwrap(), &vec!["hi".to_string()]);
    assert_eq!(hub.get(2).unwrap(), &vec!["hi".to_string()]);
    assert_eq!(hub.len(), 3);
}

#[test]
fn late_joiner_misses_earlier_message() {
    let mut acceptor = Acceptor::new();
    let mut hub: Hub<Mailbox> = Hub::new();
    let mut a = Connection::new(acceptor.on_accept(true).unwrap());
    register(&mut hub, &mut a);
    let event = a.step(text("x")).unwrap();
    assert_eq!(deliver(&mut hub, event), Vec::<ClientId>::new());
    let mut b = Connection::new(acceptor.on_accept(true).unwrap());
    register(&mut hub, &mut b);
    assert_eq!(hub.get(b.id).unwrap(), &Vec::<String>::new());
    assert_eq!(hub.get(a.id).unwrap(), &Vec::<String>::new());
}

#[test]
fn non_text_frame_is_dropped() {
    let mut hub: Hub<Mailbox> = Hub::new();
    let mut a = Connection::new(0);
    let mut b = Connection::new(1);
    register(&mut hub, &mut a);
    register(&mut hub, &mut b);
    assert!(a.step(Input::<Mailbox>::Received(Frame::Other)).is_none());
    assert_eq!(a.phase, Phase::Open);
    assert_eq!(hub.get(1).unwrap(), &Vec::<String>::new());
    let event = a.step(text("after")).unwrap();
    assert_eq!(deliver(&mut hub, event), vec![1]);
    assert_eq!(hub.get(1).unwrap(), &vec!["after".to_string()]);
}

#[test]
fn ids_count_up_and_skip_failed_accepts() {
    let mut acceptor = Acceptor::new();
    assert_eq!(acceptor.on_accept(true), Some(0));
    assert_eq!(acceptor.on_accept(false), None);
    assert_eq!(acceptor.on_accept(true), Some(1));
    assert_eq!(acceptor.on_accept(true), Some(2));
}

#[test]
fn handshake_failure_leaves_others_alone() {
    let mut hub: Hub<Mailbox> = Hub::new();
    let mut b = Connection::new(0);
    let mut c = Connection::new(1);
    register(&mut hub, &mut b);
    register(&mut hub, &mut c);
    let mut a = Connection::new(2);
    assert!(a.step(Input::<Mailbox>::HandshakeFailed).is_none());
    assert_eq!(a.phase, Phase::Closed);
    assert!(a.step(text("lost")).is_none());
    let event = b.step(text("still here")).unwrap();
    assert_eq!(deliver(&mut hub, event), vec![1]);
    assert_eq!(hub.get(1).unwrap(), &vec!["still here".to_string()]);
    assert!(hub.get(2).is_none());
}

#[test]
fn events_wait_for_the_broadcast_in_flight() {
    let mut hub: Hub<Mailbox> = Hub::new();
    hub.handle_event(Event::NewUser(NewUser::new(Mailbox::new(), 0)));
    hub.handle_event(Event::NewUser(NewUser::new(Mailbox::new(), 1)));
    let recipients = match hub.handle_event(Event::NewMessage(NewMessage::new("m".to_string(), 0))) {
        Step::Broadcast { recipients, .. } => recipients,
        _ => panic!("expected a broadcast"),
    };
    assert_eq!(recipients.len(), 1);
    assert_eq!(hub.len(), 1);
    match hub.handle_event(Event::NewUser(NewUser::new(Mailbox::new(), 2))) {
        Step::Deferred(Event::NewUser(u)) => assert_eq!(u.id, 2),
        _ => panic!("expected the event back"),
    }
    assert!(hub.get(2).is_none());
    let results: Vec<(Client<Mailbox>, bool)> = recipients.into_iter().map(|c| (c, true)).collect();
    hub.finish_broadcast(results);
    assert_eq!(hub.len(), 2);
    match hub.handle_event(Event::NewUser(NewUser::new(Mailbox::new(), 2))) {
        Step::Registered(id) => assert_eq!(id, 2),
        _ => panic!("expected a registration"),
    }
    assert_eq!(hub.len(), 3);
}

#[test]
fn failed_write_unregisters_recipient() {
    let mut hub: Hub<Mailbox> = Hub::new();
    for id in 0..3 {
        hub.handle_event(Event::NewUser(NewUser::new(Mailbox::new(), id)));
    }
    let recipients = match hub.handle_event(Event::NewMessage(NewMessage::new("m".to_string(), 0))) {
        Step::Broadcast { text, recipients } => {
            assert_eq!(text, "m");
            recipients
        }
        _ => panic!("expected a broadcast"),
    };
    let results: Vec<(Client<Mailbox>, bool)> =
        recipients.into_iter().map(|c| { let ok = c.id != 1; (c, ok) }).collect();
    hub.finish_broadcast(results);
    assert_eq!(hub.len(), 2);
    assert!(hub.get(0).is_some());
    assert!(hub.get(1).is_none());
    assert!(hub.get(2).is_some());
}

#[test]
fn registering_again_replaces_the_handle() {
    let mut hub: Hub<Mailbox> = Hub::new();
    hub.handle_event(Event::NewUser(NewUser::new(vec!["old".to_string()], 4)));
    hub.handle_event(Event::NewUser(NewUser::new(vec!["new".to_string()], 4)));
    assert_eq!(hub.len(), 1);
    assert_eq!(hub.get(4).unwrap(), &vec!["new".to_string()]);
}

#[test]
fn sender_alone_gets_nothing() {
    let mut hub: Hub<Mailbox> = Hub::new();
    hub.handle_event(Event::NewUser(NewUser::new(Mailbox::new(), 0)));
    let event = Event::NewMessage(NewMessage::new("echo?".to_string(), 0));
    assert_eq!(deliver(&mut hub, event), Vec::<ClientId>::new());
    assert_eq!(hub.get(0).unwrap(), &Vec::<String>::new());
}

#[test]
fn message_from_unknown_sender_reaches_everyone() {
    let mut hub: Hub<Mailbox> = Hub::new();
    hub.handle_event(Event::NewUser(NewUser::new(Mailbox::new(), 0)));
    hub.handle_event(Event::NewUser(NewUser::new(Mailbox::new(), 1)));
    let event = Event::NewMessage(NewMessage::new("all".to_string(), 9));
    assert_eq!(deliver(&mut hub, event), vec![0, 1]);
}

#[test]
fn connection_lifecycle() {
    let mut c = Connection::new(3);
    assert_eq!(c.phase, Phase::Handshaking);
    assert!(c.step(text("early")).is_none());
    match c.step(Input::Handshaken(Mailbox::new())) {
        Some(Event::NewUser(u)) => assert_eq!(u.id, 3),
        _ => panic!("expected a registration event"),
    }
    assert_eq!(c.phase, Phase::Open);
    assert!(c.step(Input::Handshaken(Mailbox::new())).is_none());
    match c.step(text("body")) {
        Some(Event::NewMessage(m)) => {
            assert_eq!(m.id, 3);
            assert_eq!(m.message, "body");
        }
        _ => panic!("expected a message event"),
    }
    assert!(c.step(Input::<Mailbox>::Ended).is_none());
    assert_eq!(c.phase, Phase::Closed);
    assert!(c.step(text("late")).is_none());
}

#[test]
fn constructors_keep_their_fields() {
    let u = NewUser::new(7u8, 11);
    assert_eq!((u.stream, u.id), (7, 11));
    let m = NewMessage::new("t".to_string(), -1);
    assert_eq!((m.message.as_str(), m.id), ("t", -1));
}

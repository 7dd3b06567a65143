use zenoh_hammer::task_zenoh::{put_report, Flow, Registry, Reply, SessionBook};

#[test]
fn registry_read_after_write() {
    let mut r: Registry<&str> = Registry::new();
    assert!(r.insert(5, "five").is_none());
    assert!(r.insert(2, "two").is_none());
    assert!(r.insert(9, "nine").is_none());
    assert_eq!(r.insert(5, "FIVE"), Some("five"));
    assert!(r.contains(5));
    assert_eq!(r.remove(2), Some("two"));
    assert!(r.remove(2).is_none());
    assert!(!r.contains(2));
    assert_eq!(r.drain(), vec![(5, "FIVE"), (9, "nine")]);
}

#[test]
fn subscriber_bookkeeping() {
    let mut book: SessionBook<u32, &str> = SessionBook::new();
    let (replaced, reply, flow) = book.subscriber_declared(3, Ok(30));
    assert!(replaced.is_none());
    assert!(matches!(reply, Reply::AddSubRes(3, Ok(()))));
    assert!(flow == Flow::Continue);
    let (replaced, _, _) = book.subscriber_declared(3, Ok(31));
    assert_eq!(replaced, Some(30));
    let (closed, reply) = book.delete_subscriber(3);
    assert_eq!(closed, Some(31));
    assert!(matches!(reply, Reply::DelSubRes(3)));
    let (closed, reply) = book.delete_subscriber(3);
    assert!(closed.is_none());
    assert!(matches!(reply, Reply::DelSubRes(3)));
    let (_, reply, flow) = book.subscriber_declared(4, Err("denied".to_string()));
    assert!(flow == Flow::Abort);
    match reply {
        Reply::AddSubRes(4, Err(e)) => assert_eq!(e, "denied"),
        _ => panic!("expected an error answer"),
    }
    assert!(!book.subscribers.contains(4));
}

#[test]
fn tokens_and_liveliness_bookkeeping() {
    let mut book: SessionBook<u32, &str> = SessionBook::new();
    let (_, reply) = book.token_declared(1, Ok("t1"));
    assert!(matches!(reply, Reply::DeclareLivelinessTokenRes(1, Ok(()))));
    let (_, reply) = book.token_declared(2, Err("bad".to_string()));
    assert!(matches!(reply, Reply::DeclareLivelinessTokenRes(2, Err(_))));
    assert_eq!(book.undeclare_token(1), Some("t1"));
    assert!(book.undeclare_token(1).is_none());
    let (_, reply) = book.liveliness_subscriber_declared(7, Ok(70));
    assert!(matches!(reply, Reply::AddLivelinessSubRes(7, Ok(()))));
    let (_, reply) = book.liveliness_subscriber_declared(8, Err("x".to_string()));
    assert!(matches!(reply, Reply::AddLivelinessSubRes(8, Err(_))));
    let (closed, reply) = book.delete_liveliness_subscriber(7);
    assert_eq!(closed, Some(70));
    assert!(matches!(reply, Reply::DelLivelinessSubRes(7)));
}

#[test]
fn shutdown_closes_in_id_order() {
    let mut book: SessionBook<u32, &str> = SessionBook::new();
    book.subscriber_declared(9, Ok(90));
    book.subscriber_declared(2, Ok(20));
    book.token_declared(5, Ok("t5"));
    book.token_declared(1, Ok("t1"));
    book.liveliness_subscriber_declared(4, Ok(40));
    let (subs, tokens, lsubs) = book.shutdown();
    let ids: Vec<(u32, u64)> = subs
        .iter()
        .map(|(s, r)| match r {
            Reply::DelSubRes(id) => (*s, *id),
            _ => panic!("expected DelSubRes"),
        })
        .collect();
    assert_eq!(ids, vec![(20, 2), (90, 9)]);
    assert_eq!(tokens, vec!["t1", "t5"]);
    assert_eq!(lsubs.len(), 1);
    assert!(matches!(lsubs[0], (40, Reply::DelLivelinessSubRes(4))));
}

#[test]
fn put_reports() {
    match put_report(3, "demo/x", Ok(())) {
        Reply::PutRes(id, ok, text) => {
            assert_eq!(id, 3);
            assert!(ok);
            assert_eq!(text, "put ok \"demo/x\"");
        }
        _ => panic!("expected PutRes"),
    }
    match put_report(4, "demo/y", Err("closed".to_string())) {
        Reply::PutRes(id, ok, text) => {
            assert_eq!(id, 4);
            assert!(!ok);
            assert_eq!(text, "put error \"demo/y\", closed");
        }
        _ => panic!("expected PutRes"),
    }
}

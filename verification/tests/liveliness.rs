use zenoh_hammer::page_liveliness::{
    format_system_time, Event, PageLiveliness, SampleKind, Timestamp,
};

#[test]
fn time_of_day_is_formatted() {
    assert_eq!(format_system_time(Timestamp { secs: 3661, millis: 5 }), "01:01:01.005");
    assert_eq!(format_system_time(Timestamp { secs: 0, millis: 0 }), "00:00:00.000");
    assert_eq!(format_system_time(Timestamp { secs: 86399, millis: 999 }), "23:59:59.999");
    assert_eq!(format_system_time(Timestamp { secs: 86400 + 45296, millis: 120 }), "12:34:56.120");
}

#[test]
fn liveliness_defaults() {
    let page = PageLiveliness::default();
    assert_eq!(page.new_token_key, "zenoh-hammer/liveliness");
    assert_eq!(page.sub_key, "zenoh-hammer/**");
    assert_eq!(page.max_events, 500);
    assert!(!page.subscribed);
}

#[test]
fn declare_token_trims_and_numbers() {
    let mut page = PageLiveliness::default();
    page.new_token_key = "  demo/a  ".to_string();
    page.declare_token();
    page.declare_token();
    assert_eq!(page.tokens.len(), 2);
    assert_eq!(page.tokens[0].id, 1);
    assert_eq!(page.tokens[1].id, 2);
    assert_eq!(page.tokens[1].key_expr, "demo/a");
    assert!(!page.tokens[1].declared);
    match page.events.back().unwrap() {
        Event::DeclareToken(d) => {
            assert_eq!(d.id, 2);
            assert_eq!(d.key_expr, "demo/a");
        }
        _ => panic!("expected a declaration"),
    }
}

#[test]
fn invalid_key_is_refused() {
    let mut page = PageLiveliness::default();
    page.new_token_key = "a//b".to_string();
    page.declare_token();
    assert!(page.tokens.is_empty());
    assert!(page.events.is_empty());
    assert_eq!(page.token_id_count, 0);
    let e = page.token_err.clone().expect("an error");
    assert!(!e.is_empty());
    page.new_token_key = "".to_string();
    page.declare_token();
    assert!(page.token_err.is_some());
}

#[test]
fn remove_token_undeclares() {
    let mut page = PageLiveliness::default();
    page.declare_token();
    page.declare_token();
    page.remove_token(1);
    assert_eq!(page.tokens.len(), 1);
    assert_eq!(page.tokens[0].id, 2);
    assert!(matches!(page.events.back(), Some(Event::UndeclareToken(1))));
    page.remove_token(9);
    assert_eq!(page.tokens.len(), 1);
    assert!(matches!(page.events.back(), Some(Event::UndeclareToken(9))));
}

#[test]
fn declare_token_result_marks_entry() {
    let mut page = PageLiveliness::default();
    page.declare_token();
    page.declare_token();
    page.processing_declare_token_res(2, Ok(()));
    assert!(page.tokens[1].declared);
    assert!(!page.tokens[0].declared);
    page.processing_declare_token_res(1, Err("refused".to_string()));
    assert!(!page.tokens[0].declared);
    assert_eq!(page.tokens[0].err_str.as_deref(), Some("refused"));
    page.processing_declare_token_res(5, Ok(()));
    assert_eq!(page.tokens.len(), 2);
}

#[test]
fn subscription_toggles() {
    let mut page = PageLiveliness::default();
    page.toggle_subscription();
    assert!(page.subscribed);
    assert_eq!(page.sub_id, 1);
    match page.events.back().unwrap() {
        Event::AddSub(d) => {
            assert_eq!(d.id, 1);
            assert_eq!(d.key_expr, "zenoh-hammer/**");
        }
        _ => panic!("expected a subscription"),
    }
    page.toggle_subscription();
    assert!(!page.subscribed);
    assert!(matches!(page.events.back(), Some(Event::DelSub(1))));
    page.sub_key = "bad//key".to_string();
    page.toggle_subscription();
    assert!(!page.subscribed);
    assert!(page.sub_err.is_some());
    assert_eq!(page.sub_id, 1);
}

#[test]
fn subscription_results() {
    let mut page = PageLiveliness::default();
    page.toggle_subscription();
    page.processing_add_sub_res(1, Err("no".to_string()));
    assert!(!page.subscribed);
    assert_eq!(page.sub_err.as_deref(), Some("no"));
    page.processing_add_sub_res(1, Ok(()));
    assert!(page.subscribed);
    assert!(page.sub_err.is_none());
    page.processing_del_sub_res(3);
    assert!(page.subscribed);
    page.processing_del_sub_res(1);
    assert!(!page.subscribed);
}

#[test]
fn event_log_is_bounded() {
    let mut page = PageLiveliness::default();
    page.toggle_subscription();
    for i in 0..505u64 {
        let kind = if i % 2 == 0 { SampleKind::Put } else { SampleKind::Delete };
        page.processing_sub_cb(1, format!("k/{}", i), kind, Timestamp { secs: i, millis: 0 });
    }
    page.processing_sub_cb(2, "other".to_string(), SampleKind::Put, Timestamp { secs: 0, millis: 0 });
    assert_eq!(page.liveliness_events.len(), 500);
    assert_eq!(page.liveliness_events.front().unwrap().key, "k/5");
    let last = page.liveliness_events.back().unwrap();
    assert_eq!(last.key, "k/504");
    assert!(last.kind == SampleKind::Put);
    assert_eq!(last.time.secs, 504);
    page.clear_events();
    assert!(page.liveliness_events.is_empty());
}

#[test]
fn a_day_later_reads_the_same() {
    for secs in [0u64, 59, 3661, 86399, 1_700_000_123] {
        let t = Timestamp { secs, millis: 321 };
        let later = Timestamp { secs: secs + 86_400, millis: 321 };
        assert_eq!(format_system_time(t), format_system_time(later));
    }
}

#[test]
fn removed_token_id_never_returns() {
    let mut page = PageLiveliness::default();
    page.declare_token();
    page.declare_token();
    page.remove_token(2);
    for _ in 0..3 {
        page.declare_token();
    }
    let ids: Vec<u64> = page.tokens.iter().map(|t| t.id).collect();
    assert_eq!(ids, vec![1, 3, 4, 5]);
    assert!(ids.iter().all(|&i| i >= 1 && i <= page.token_id_count));
}

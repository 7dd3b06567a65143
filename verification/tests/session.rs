use std::collections::VecDeque;

use zenoh_hammer::nesting::{json5_within_depth, MAX_JSON5_DEPTH};
use zenoh_hammer::page_session::{
    ArchiveConfigFileData, ArchivePageSession, ConfigFileData, Event, FilePage, PageSession,
};

fn archive(entries: &[(&str, &str)]) -> ArchivePageSession {
    ArchivePageSession {
        config_files: entries
            .iter()
            .map(|(n, p)| ArchiveConfigFileData { name: n.to_string(), path: p.to_string() })
            .collect(),
    }
}

fn names_paths(a: &ArchivePageSession) -> Vec<(String, String)> {
    a.config_files.iter().map(|c| (c.name.clone(), c.path.clone())).collect()
}

const SAVED: [(&str, &str); 3] =
    [("router", "/etc/z/router.json5"), ("peer", "peer.toml"), ("blank", "")];

#[test]
fn archive_round_trip() {
    let mut page = PageSession::default();
    page.add_config_file(ConfigFileData::new_template());
    page.load(archive(&[("tmp", "x.toml")])).unwrap();
    page.load(archive(&SAVED)).unwrap();
    let again = ArchivePageSession::from(&page);
    assert_eq!(names_paths(&again), names_paths(&archive(&SAVED)));
}

#[test]
fn load_restores_files() {
    let mut page = PageSession::default();
    page.load(archive(&SAVED)).unwrap();
    assert_eq!(page.config_file_id_count, 3);
    assert_eq!(page.selected_config_file_id, 3);
    let router = page.config_files.get(&1).unwrap();
    assert_eq!(router.name, "router");
    assert_eq!(router.path.as_deref(), Some("/etc/z/router.json5"));
    assert!(!router.is_toml);
    assert!(page.config_files.get(&2).unwrap().is_toml);
    let blank = page.config_files.get(&3).unwrap();
    assert!(blank.path.is_none());
    assert_eq!(blank.path_str, "");
    assert!(blank.source.is_empty());
    assert!(blank.selected_page == FilePage::Source);
}

#[test]
fn empty_load_selects_nothing() {
    let mut page = PageSession::default();
    page.add_config_file(ConfigFileData::new_template());
    page.load(archive(&[])).unwrap();
    assert!(page.config_files.is_empty());
    assert_eq!(page.selected_config_file_id, 0);
    assert!(ArchivePageSession::from(&page).config_files.is_empty());
}

#[test]
fn add_and_delete_config_files() {
    let mut page = PageSession::default();
    page.add_config_file(ConfigFileData::new_template());
    page.del_config_file();
    assert_eq!(page.config_files.len(), 1, "the last file stays");
    page.add_config_file(ConfigFileData::new("b".to_string(), "b.json5".to_string()));
    page.add_config_file(ConfigFileData::new("c".to_string(), "c.toml".to_string()));
    assert_eq!(page.selected_config_file_id, 3);
    page.set_connected(Some(3));
    page.del_config_file();
    assert_eq!(page.config_files.len(), 3, "the connected file stays");
    page.set_connected(Some(1));
    page.del_config_file();
    assert_eq!(page.config_files.len(), 2);
    let ids: Vec<u64> = page.dnd_items.iter().map(|d| d.id).collect();
    assert_eq!(ids, vec![1, 2]);
    assert!(page.connected());
}

#[test]
fn connect_result_sets_error() {
    let mut page = PageSession::default();
    page.add_config_file(ConfigFileData::new("a".to_string(), "a.toml".to_string()));
    page.set_connect_result(Err((1, "no route".to_string())));
    assert!(!page.connected());
    assert_eq!(page.config_files.get(&1).unwrap().err_str.as_deref(), Some("no route"));
    page.set_connect_result(Ok(1));
    assert_eq!(page.connected_config_file_id, Some(1));
    assert!(page.config_files.get(&1).unwrap().err_str.is_none());
}

#[test]
fn template_parses() {
    let c = ConfigFileData::new_template();
    assert_eq!(c.name, "new config");
    assert_eq!(c.source, "mode = \"peer\"\n");
    assert!(c.is_dirty);
    assert!(c.is_toml);
    assert!(c.err_str.is_none());
    assert!(c.json_value.is_some());
    assert!(c.format.contains("\"mode\": \"peer\""));
}

#[test]
fn toml_error_is_reported() {
    let mut c = ConfigFileData::blank("x".to_string(), None, String::new(), true);
    assert!(!c.parse_source_into_self("mode = "));
    assert!(c.json_value.is_none());
    assert!(c.format.is_empty());
    let e = c.err_str.clone().unwrap();
    assert!(e.starts_with("parse error: "));
    assert!(e.len() > "parse error: ".len());
}

#[test]
fn json5_is_parsed() {
    let mut c = ConfigFileData::blank("x".to_string(), None, String::new(), false);
    assert!(c.parse_source_into_self("{ mode: 'client', // comment\n connect: { endpoints: ['tcp/127.0.0.1:7447'] } }"));
    assert_eq!(c.json_value.as_ref().unwrap()["mode"], serde_json::Value::String("client".to_string()));
    assert!(!c.parse_source_into_self("{ mode: "));
    assert!(c.err_str.unwrap().starts_with("parse error: "));
}

#[test]
fn save_target_adopts_typed_path() {
    let mut c = ConfigFileData::blank("x".to_string(), None, String::new(), false);
    assert!(c.save_target().is_none());
    assert_eq!(c.err_str.as_deref(), Some("Enter a file path below, then save."));
    c.path_str = "  conf/new.toml ".to_string();
    assert_eq!(c.save_target().as_deref(), Some("conf/new.toml"));
    assert!(c.is_toml);
    assert_eq!(c.path.as_deref(), Some("conf/new.toml"));
}

#[test]
fn save_outcome() {
    let mut c = ConfigFileData::new_template();
    c.save_done(Err("disk full".to_string()));
    assert!(c.is_dirty);
    assert_eq!(c.err_str.as_deref(), Some("save failed: disk full"));
    c.save_done(Ok(()));
    assert!(!c.is_dirty);
    assert!(c.err_str.is_none());
}

#[test]
fn load_outcome() {
    let mut c = ConfigFileData::new("a".to_string(), "a.json5".to_string());
    c.load_start();
    c.load_done("a.json5", None);
    assert_eq!(c.err_str.as_deref(), Some("failed to load config file"));
    c.load_start();
    assert!(c.err_str.is_none());
    c.load_done("a.toml", Some("mode = \"client\"".to_string()));
    assert!(c.is_toml);
    assert_eq!(c.source, "mode = \"client\"");
    assert!(!c.is_dirty);
    c.load_done("a.toml", Some("[[[".to_string()));
    assert_eq!(c.source, "mode = \"client\"");
    assert!(c.err_str.is_some());
}

#[test]
fn editing_source_reparses() {
    let mut c = ConfigFileData::new("a".to_string(), "a.json5".to_string());
    c.source = "{ mode: 'peer' }".to_string();
    c.source_edited();
    assert!(c.is_dirty);
    assert!(c.err_str.is_none());
    assert!(c.json_value.is_some());
}

#[test]
fn editing_path() {
    let mut c = ConfigFileData::new("a".to_string(), "a.json5".to_string());
    c.path_str = "   ".to_string();
    c.path_edited();
    assert!(c.path.is_none());
    c.path_str = " b.toml".to_string();
    c.path_edited();
    assert_eq!(c.path.as_deref(), Some("b.toml"));
}

#[test]
fn open_session_flow() {
    let mut events: VecDeque<Event> = VecDeque::new();
    let mut c = ConfigFileData::new("a".to_string(), "a.json5".to_string());
    c.id = 4;
    c.err_str = Some("stale".to_string());
    assert!(!c.open_session_start());
    assert!(c.err_str.is_none());
    c.open_session_finish(&mut events);
    match events.back() {
        Some(Event::Connect(b)) => assert_eq!(**b, (4, "a.json5".to_string())),
        _ => panic!("expected a connect request"),
    }
    let mut t = ConfigFileData::new_template();
    assert!(t.open_session_start());
    t.open_session_finish(&mut events);
    assert_eq!(events.len(), 1);
    assert_eq!(t.err_str.as_deref(), Some("Enter a file path below and save first."));
    let mut failed = ConfigFileData::new_template();
    failed.err_str = Some("save failed: x".to_string());
    failed.open_session_finish(&mut events);
    assert_eq!(events.len(), 1);
    assert_eq!(failed.err_str.as_deref(), Some("save failed: x"));
}

#[test]
fn picked_path_names_file() {
    let c = ConfigFileData::for_picked_path("/home/u/zenoh/client.json5".to_string());
    assert_eq!(c.name, "client");
    assert!(!c.is_toml);
    let d = ConfigFileData::for_picked_path("/".to_string());
    assert_eq!(d.name, "new file");
    let e = ConfigFileData::for_picked_path("/etc/peer.TOML".to_string());
    assert!(!e.is_toml);
}

#[test]
fn session_info_refresh() {
    let mut page = PageSession::default();
    assert!(!page.refresh_session_info(None));
    assert!(page.events.is_empty());
    page.set_connected(Some(1));
    assert!(page.refresh_session_info(None));
    assert!(!page.refresh_session_info(Some(1999)));
    assert!(page.refresh_session_info(Some(2000)));
    assert_eq!(page.events.len(), 2);
    assert!(matches!(page.events.back(), Some(Event::RequestSessionInfo)));
}

#[test]
fn selected_file_needs_loading() {
    let mut page = PageSession::default();
    assert!(page.selected_needs_load().is_none());
    page.add_config_file(ConfigFileData::new("a".to_string(), "a.json5".to_string()));
    assert_eq!(page.selected_needs_load().as_deref(), Some("a.json5"));
    page.add_config_file(ConfigFileData::new_template());
    assert!(page.selected_needs_load().is_none());
}

#[test]
fn archive_entry_of_file() {
    let c = ConfigFileData::new("n".to_string(), "p.toml".to_string());
    let a = ArchiveConfigFileData::from(&c);
    assert_eq!((a.name.as_str(), a.path.as_str()), ("n", "p.toml"));
    let t = ConfigFileData::new_template();
    assert_eq!(ArchiveConfigFileData::from(&t).path, "");
    let back = ConfigFileData::try_from(&a).unwrap();
    assert_eq!(back.path.as_deref(), Some("p.toml"));
    assert!(back.is_toml);
}

fn peer_value() -> serde_json::Value {
    serde_json::from_str("{\"mode\": \"peer\"}").unwrap()
}

#[test]
fn template_value_and_format() {
    let c = ConfigFileData::new_template();
    assert_eq!(c.json_value, Some(peer_value()));
    assert_eq!(c.format, "{\n  \"mode\": \"peer\"\n}");
    assert_eq!(c.path, None);
    assert_eq!(c.path_str, "");
}

#[test]
fn toml_source_parses_to_value_and_pretty_text() {
    let mut c = ConfigFileData::blank("n".to_string(), None, String::new(), true);
    assert!(c.parse_source_into_self("mode = \"peer\"\n"));
    assert_eq!(c.json_value, Some(peer_value()));
    assert_eq!(c.format, "{\n  \"mode\": \"peer\"\n}");
    assert_eq!(c.source, "");
    assert!(c.err_str.is_none());
}

#[test]
fn edited_source_stores_its_value() {
    let mut c = ConfigFileData::new("a".to_string(), "a.json5".to_string());
    c.source = "{ mode: 'peer', }".to_string();
    c.source_edited();
    assert_eq!(c.json_value, Some(peer_value()));
    assert_eq!(c.format, serde_json::to_string_pretty(&peer_value()).unwrap());
    c.source = "{ mode: ".to_string();
    c.source_edited();
    assert!(c.is_dirty);
    assert!(c.json_value.is_none());
    assert!(c.format.is_empty());
    assert!(c.err_str.unwrap().starts_with("parse error: "));
}

#[test]
fn loaded_file_stores_its_value() {
    let mut c = ConfigFileData::new("a".to_string(), "a.toml".to_string());
    c.load_start();
    c.load_done("a.toml", Some("mode = \"peer\"\n".to_string()));
    assert_eq!(c.json_value, Some(peer_value()));
    assert_eq!(c.source, "mode = \"peer\"\n");
    c.load_start();
    c.load_done("a.toml", Some("[[[".to_string()));
    assert_eq!(c.source, "");
    assert!(c.format.is_empty());
    assert!(c.json_value.is_none());
}

fn nested(levels: usize) -> String {
    format!("{}{}", "[".repeat(levels), "]".repeat(levels))
}

#[test]
fn json5_at_depth_limit_is_parsed() {
    let mut c = ConfigFileData::blank("x".to_string(), None, String::new(), false);
    assert!(c.parse_source_into_self(&nested(MAX_JSON5_DEPTH)));
    assert!(c.json_value.is_some());
    assert!(json5_within_depth(&nested(MAX_JSON5_DEPTH)));
}

#[test]
fn json5_too_deep_is_refused() {
    let mut c = ConfigFileData::blank("x".to_string(), None, String::new(), false);
    assert!(!c.parse_source_into_self(&nested(MAX_JSON5_DEPTH + 1)));
    assert_eq!(c.err_str.as_deref(), Some("parse error: nested more than 128 levels deep"));
    assert!(c.json_value.is_none());
    assert!(c.format.is_empty());
    let open_only = "{a:".repeat(50_000);
    assert!(!json5_within_depth(&open_only));
    assert!(!c.parse_source_into_self(&"[".repeat(100_000)));
    assert_eq!(c.err_str.as_deref(), Some("parse error: nested more than 128 levels deep"));
}

#[test]
fn brackets_in_strings_and_comments_do_not_nest() {
    let deep = "[".repeat(300);
    let text = format!(
        "{{ a: \"{deep}\", b: '{deep}\\'{deep}', // {deep}\n c: 1, /* {deep} **/ d: [[1]] }}"
    );
    assert!(json5_within_depth(&text));
    let mut c = ConfigFileData::blank("x".to_string(), None, String::new(), false);
    assert!(c.parse_source_into_self(&text));
    let v = c.json_value.unwrap();
    assert_eq!(v["a"].as_str().unwrap().len(), 300);
    assert_eq!(v["c"], serde_json::Value::from(1));
    let closers = format!("[\"{}\"{}]", "]".repeat(200), "[".repeat(MAX_JSON5_DEPTH));
    assert!(!json5_within_depth(&closers));
}

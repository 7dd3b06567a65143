//! The session page: the list of session config files (TOML or JSON5), their
//! editing, saving and loading, and which of them has an open session.

use std::collections::{BTreeMap, VecDeque};
use vstd::prelude::*;

use crate::json::{json_pretty, pretty_text};
use crate::nesting::{json5_nesting, json5_within_depth, MAX_JSON5_DEPTH};
use crate::task_zenoh::SessionInfoData;
use crate::text::{str_trim, trim_white};

verus! {

broadcast use vstd::std_specs::btree::group_btree_axioms;

/// The message of the error that `toml` reports for `text`, or `None` when it
/// reads `text` as a TOML document.
pub uninterp spec fn toml_error(text: Seq<char>) -> Option<Seq<char>>;

/// The JSON value that `toml` builds from `text` (where it reads it).
pub uninterp spec fn toml_value(text: Seq<char>) -> serde_json::Value;

/// The JSON value that `json5` builds from `text` (where it reads it).
pub uninterp spec fn json5_value(text: Seq<char>) -> serde_json::Value;

/// The message of the error that `json5` reports for `text`, or `None` when it
/// reads `text` as a JSON5 document.
pub uninterp spec fn json5_error(text: Seq<char>) -> Option<Seq<char>>;

/// The extension that `std::path::Path::extension` finds in `path`, if any
/// (and if it is text).
pub uninterp spec fn path_extension(path: Seq<char>) -> Option<Seq<char>>;

/// Calls `toml::from_str::<serde_json::Value>`: the document as a JSON
/// value (`toml_value(text)`), or the error's message.
#[verifier::external_body]
pub(crate) fn toml_parse(text: &str) -> (r: Result<serde_json::Value, String>)
    ensures
        r matches Ok(v) ==> v == toml_value(text@),
        match r {
            Ok(_) => toml_error(text@) is None,
            Err(e) => toml_error(text@) == Some(e@),
        },
{
    match toml::from_str::<serde_json::Value>(text) {
        Ok(v) => Ok(v),
        Err(e) => Err(e.to_string()),
    }
}

/// Calls `json5::from_str::<serde_json::Value>`: the document
/// (`json5_value(text)`), or the error's message. The parser descends once
/// per level of arrays and objects and sets no limit of its own, so it is
/// only handed texts that nest at most `MAX_JSON5_DEPTH` deep.
#[verifier::external_body]
pub(crate) fn json5_parse(text: &str) -> (r: Result<serde_json::Value, String>)
    requires
        json5_nesting(text@) <= MAX_JSON5_DEPTH,
    ensures
        r matches Ok(v) ==> v == json5_value(text@),
        match r {
            Ok(_) => json5_error(text@) is None,
            Err(e) => json5_error(text@) == Some(e@),
        },
{
    match json5::from_str::<serde_json::Value>(text) {
        Ok(v) => Ok(v),
        Err(e) => Err(e.to_string()),
    }
}

/// Calls `std::path::Path::extension` and keeps it where it is text.
#[verifier::external_body]
pub(crate) fn extension_of(path: &str) -> (r: Option<String>)
    ensures
        match r {
            Some(e) => path_extension(path@) == Some(e@),
            None => path_extension(path@) is None,
        },
{
    match std::path::Path::new(path).extension() {
        Some(e) => match e.to_str() {
            Some(s) => Some(s.to_owned()),
            None => None,
        },
        None => None,
    }
}

/// The file name without its extension that `std::path::Path::file_stem`
/// finds in `path`, if any (and if it is text).
pub uninterp spec fn path_file_stem(path: Seq<char>) -> Option<Seq<char>>;

/// Calls `std::path::Path::file_stem` and keeps it where it is text.
#[verifier::external_body]
pub(crate) fn file_stem_of(path: &str) -> (r: Option<String>)
    ensures
        match r {
            Some(e) => path_file_stem(path@) == Some(e@),
            None => path_file_stem(path@) is None,
        },
{
    match std::path::Path::new(path).file_stem() {
        Some(e) => match e.to_str() {
            Some(s) => Some(s.to_owned()),
            None => None,
        },
        None => None,
    }
}

pub open spec fn word_toml() -> Seq<char> {
    seq!['t', 'o', 'm', 'l']
}

/// A config file is read as TOML when its path has the extension `toml`.
pub open spec fn is_toml_path(path: Seq<char>) -> bool {
    path_extension(path) == Some(word_toml())
}

fn has_toml_extension(path: &str) -> (r: bool)
    ensures
        r == is_toml_path(path@),
{
    proof {
        reveal_strlit("toml");
        assert("toml"@ =~= word_toml());
    }
    match extension_of(path) {
        Some(e) => {
            let t = "toml".to_owned();
            e == t
        },
        None => false,
    }
}

/// What the page asks of the session task.
pub enum Event {
    Connect(Box<(u64, String)>),
    Disconnect,
    RequestSessionInfo,
}

/// A config file as the app state saves it.
pub struct ArchiveConfigFileData {
    pub name: String,
    pub path: String,
}

/// The session page as the app state saves it.
pub struct ArchivePageSession {
    pub config_files: Vec<ArchiveConfigFileData>,
}

/// The view of the editor.
#[derive(Clone, Copy, PartialEq, Eq, Structural)]
pub enum FilePage {
    Source,
    Format,
    Tree,
}

/// A config file in the page.
pub struct ConfigFileData {
    pub id: u64,
    pub name: String,
    pub path: Option<String>,
    pub path_str: String,
    pub err_str: Option<String>,
    pub selected_page: FilePage,
    pub source: String,
    pub format: String,
    /// The parsed document; `None` where there is none (shown as `null`).
    pub json_value: Option<serde_json::Value>,
    pub is_toml: bool,
    pub is_dirty: bool,
}

/// The text that a path is saved as.
pub open spec fn path_text(path: Option<String>) -> Seq<char> {
    match path {
        Some(p) => p@,
        None => seq![],
    }
}

/// What an archive entry saves of a config file.
pub open spec fn archive_of(c: ConfigFileData) -> (Seq<char>, Seq<char>) {
    (c.name@, path_text(c.path))
}

pub open spec fn archive_view(a: ArchiveConfigFileData) -> (Seq<char>, Seq<char>) {
    (a.name@, a.path@)
}

/// `c` is the config file that an archive entry restores, before it gets its
/// id: name and path as saved, nothing loaded yet.
pub open spec fn restored_from(c: ConfigFileData, a: ArchiveConfigFileData) -> bool {
    &&& c.name@ == a.name@
    &&& c.path_str@ == a.path@
    &&& (c.path is None <==> a.path@.len() == 0)
    &&& (c.path matches Some(p) ==> p@ == a.path@)
    &&& c.is_toml == (a.path@.len() != 0 && is_toml_path(a.path@))
    &&& is_blank(c)
}

/// Nothing is loaded, shown or pending in `c`.
pub open spec fn is_blank(c: ConfigFileData) -> bool {
    &&& c.err_str is None
    &&& c.selected_page == FilePage::Source
    &&& c.source@.len() == 0
    &&& c.format@.len() == 0
    &&& c.json_value is None
    &&& !c.is_dirty
}

impl ArchiveConfigFileData {
    /// What the app state saves of a config file: its name and path.
    pub fn from(value: &ConfigFileData) -> (r: ArchiveConfigFileData)
        ensures
            archive_view(r) == archive_of(*value),
    {
        let path = match &value.path {
            None => String::new(),
            Some(o) => o.clone(),
        };
        ArchiveConfigFileData { name: value.name.clone(), path }
    }
}

pub open spec fn message_parse_error() -> Seq<char> {
    seq!['p', 'a', 'r', 's', 'e', ' ', 'e', 'r', 'r', 'o', 'r', ':', ' ']
}

pub open spec fn message_save_failed() -> Seq<char> {
    seq!['s', 'a', 'v', 'e', ' ', 'f', 'a', 'i', 'l', 'e', 'd', ':', ' ']
}

pub open spec fn message_enter_path() -> Seq<char> {
    seq![
        'E', 'n', 't', 'e', 'r', ' ', 'a', ' ', 'f', 'i', 'l', 'e', ' ', 'p', 'a', 't', 'h', ' ',
        'b', 'e', 'l', 'o', 'w', ',', ' ', 't', 'h', 'e', 'n', ' ', 's', 'a', 'v', 'e', '.',
    ]
}

pub open spec fn message_save_first() -> Seq<char> {
    seq![
        'E', 'n', 't', 'e', 'r', ' ', 'a', ' ', 'f', 'i', 'l', 'e', ' ', 'p', 'a', 't', 'h', ' ',
        'b', 'e', 'l', 'o', 'w', ' ', 'a', 'n', 'd', ' ', 's', 'a', 'v', 'e', ' ', 'f', 'i', 'r',
        's', 't', '.',
    ]
}

pub open spec fn message_load_failed() -> Seq<char> {
    seq![
        'f', 'a', 'i', 'l', 'e', 'd', ' ', 't', 'o', ' ', 'l', 'o', 'a', 'd', ' ', 'c', 'o', 'n',
        'f', 'i', 'g', ' ', 'f', 'i', 'l', 'e',
    ]
}

pub open spec fn template_source() -> Seq<char> {
    seq!['m', 'o', 'd', 'e', ' ', '=', ' ', '"', 'p', 'e', 'e', 'r', '"', '\n']
}

pub open spec fn template_name() -> Seq<char> {
    seq!['n', 'e', 'w', ' ', 'c', 'o', 'n', 'f', 'i', 'g']
}

pub open spec fn message_too_deep() -> Seq<char> {
    seq![
        'n', 'e', 's', 't', 'e', 'd', ' ', 'm', 'o', 'r', 'e', ' ', 't', 'h', 'a', 'n', ' ', '1',
        '2', '8', ' ', 'l', 'e', 'v', 'e', 'l', 's', ' ', 'd', 'e', 'e', 'p',
    ]
}

/// The message of the parser's error for `source`, read as TOML or JSON5. A
/// JSON5 text that nests deeper than `MAX_JSON5_DEPTH` is refused before it
/// reaches the parser.
pub open spec fn parse_error_of(is_toml: bool, source: Seq<char>) -> Option<Seq<char>> {
    if is_toml {
        toml_error(source)
    } else if json5_nesting(source) > MAX_JSON5_DEPTH {
        Some(message_too_deep())
    } else {
        json5_error(source)
    }
}

/// The document that the parser builds from `source`, read as TOML or JSON5.
pub open spec fn value_of(is_toml: bool, source: Seq<char>) -> serde_json::Value {
    if is_toml {
        toml_value(source)
    } else {
        json5_value(source)
    }
}

/// The outcome of parsing `source` (TOML or JSON5) into a config file: on
/// success a document and its pretty text; on failure no document, no text
/// and the parser's message after `parse error: `.
pub open spec fn parsed_into(a: ConfigFileData, b: ConfigFileData, source: Seq<char>, ok: bool) -> bool {
    &&& b.id == a.id
    &&& b.name == a.name
    &&& b.path == a.path
    &&& b.path_str == a.path_str
    &&& b.selected_page == a.selected_page
    &&& b.source == a.source
    &&& b.is_toml == a.is_toml
    &&& b.is_dirty == a.is_dirty
    &&& (ok ==> b.json_value == Some(value_of(a.is_toml, source)) && b.format@ == pretty_text(
        value_of(a.is_toml, source),
    ) && b.err_str == a.err_str)
    &&& (!ok ==> b.json_value is None && b.format@.len() == 0)
    &&& ok == (parse_error_of(a.is_toml, source) is None)
    &&& (parse_error_of(a.is_toml, source) matches Some(m) ==> (b.err_str matches Some(e) && e@
        == message_parse_error() + m))
}

/// `f` with the source and the unsaved-edits flag of `a`.
pub open spec fn with_edit_state(f: ConfigFileData, a: ConfigFileData) -> ConfigFileData {
    ConfigFileData { source: a.source, is_dirty: a.is_dirty, ..f }
}

/// `c` with unsaved edits and no error.
pub open spec fn marked_edited(c: ConfigFileData) -> ConfigFileData {
    ConfigFileData { is_dirty: true, err_str: None, ..c }
}

impl ConfigFileData {
    /// A config file with nothing loaded.
    pub fn blank(name: String, path: Option<String>, path_str: String, is_toml: bool) -> (r: Self)
        ensures
            r.id == 0,
            r.name == name,
            r.path == path,
            r.path_str == path_str,
            r.is_toml == is_toml,
            is_blank(r),
    {
        ConfigFileData {
            id: 0,
            name,
            path,
            path_str,
            err_str: None,
            selected_page: FilePage::Source,
            source: String::new(),
            format: String::new(),
            json_value: None,
            is_toml,
            is_dirty: false,
        }
    }

    /// A config file for a path chosen in a file dialog.
    pub fn new(name: String, path: String) -> (r: Self)
        ensures
            r.id == 0,
            r.name == name,
            r.path == Some(path),
            r.path_str == path,
            r.is_toml == is_toml_path(path@),
            is_blank(r),
    {
        let is_toml = has_toml_extension(path.as_str());
        let path_str = path.clone();
        ConfigFileData::blank(name, Some(path), path_str, is_toml)
    }

    /// A new, unsaved TOML config for a peer.
    pub fn new_template() -> (r: Self)
        ensures
            r.id == 0,
            r.name@ == template_name(),
            r.path is None,
            r.path_str@.len() == 0,
            r.is_toml,
            r.is_dirty,
            r.source@ == template_source(),
            r.selected_page == FilePage::Source,
            r.err_str is None <==> r.json_value is Some,
            r.json_value is Some <==> toml_error(template_source()) is None,
            toml_error(template_source()) is None ==> r.json_value == Some(
                toml_value(template_source()),
            ) && r.format@ == pretty_text(toml_value(template_source())),
    {
        proof {
            reveal_strlit("mode = \"peer\"\n");
            reveal_strlit("new config");
            assert("mode = \"peer\"\n"@ =~= template_source());
            assert("new config"@ =~= template_name());
        }
        let source = "mode = \"peer\"\n".to_owned();
        let mut cfg = ConfigFileData::blank("new config".to_owned(), None, String::new(), true);
        cfg.is_dirty = true;
        let _ = cfg.parse_source_into_self(source.as_str());
        cfg.source = source;
        cfg
    }

    /// Parses `source` as TOML or JSON5 (after `is_toml`) into the document
    /// and its pretty text (see `parsed_into`).
    pub fn parse_source_into_self(&mut self, source: &str) -> (ok: bool)
        ensures
            parsed_into(*old(self), *final(self), source@, ok),
    {
        proof {
            reveal_strlit("parse error: ");
            assert("parse error: "@ =~= message_parse_error());
            reveal_strlit("nested more than 128 levels deep");
            assert("nested more than 128 levels deep"@ =~= message_too_deep());
        }
        let result: Result<serde_json::Value, String> = if self.is_toml {
            toml_parse(source)
        } else if !json5_within_depth(source) {
            Err("nested more than 128 levels deep".to_owned())
        } else {
            json5_parse(source)
        };
        match result {
            Ok(value) => {
                self.format = json_pretty(&value);
                self.json_value = Some(value);
                true
            },
            Err(e) => {
                self.format = String::new();
                self.json_value = None;
                let mut msg = "parse error: ".to_owned();
                msg.append(e.as_str());
                assert(msg@ == message_parse_error() + e@);
                self.err_str = Some(msg);
                false
            },
        }
    }

    /// Where to save: the path, or else the typed path (which then becomes
    /// the path). Without either, `None` and an error asking for a path.
    pub fn save_target(&mut self) -> (r: Option<String>)
        ensures
            ({
                let typed = trim_white(old(self).path_str@);
                let adopt = old(self).path is None && typed.len() != 0;
                &&& final(self).path == (if adopt {
                    final(self).path
                } else {
                    old(self).path
                })
                &&& adopt ==> (final(self).path matches Some(p) && p@ == typed)
                &&& adopt ==> final(self).is_toml == is_toml_path(typed)
                &&& !adopt ==> final(self).is_toml == old(self).is_toml
                &&& match final(self).path {
                    Some(p) => r == Some(p) && final(self).err_str == old(self).err_str,
                    None => r is None && (final(self).err_str matches Some(e) && e@
                        == message_enter_path()),
                }
            }),
            final(self).id == old(self).id,
            final(self).name == old(self).name,
            final(self).path_str == old(self).path_str,
            final(self).source == old(self).source,
            final(self).format == old(self).format,
            final(self).json_value == old(self).json_value,
            final(self).is_dirty == old(self).is_dirty,
            final(self).selected_page == old(self).selected_page,
    {
        if self.path.is_none() {
            let typed = str_trim(self.path_str.as_str());
            if !typed.is_empty() {
                self.is_toml = has_toml_extension(typed);
                self.path = Some(typed.to_owned());
            }
        }
        match &self.path {
            Some(p) => Some(p.clone()),
            None => {
                proof {
                    reveal_strlit("Enter a file path below, then save.");
                    assert("Enter a file path below, then save."@ =~= message_enter_path());
                }
                self.err_str = Some("Enter a file path below, then save.".to_owned());
                None
            },
        }
    }

    /// Records the outcome of writing the source to its path.
    pub fn save_done(&mut self, written: Result<(), String>)
        ensures
            match written {
                Ok(()) => !final(self).is_dirty && final(self).err_str is None,
                Err(e) => final(self).is_dirty == old(self).is_dirty && (final(self).err_str matches Some(
                    s,
                ) && s@ == message_save_failed() + e@),
            },
            final(self).id == old(self).id,
            final(self).name == old(self).name,
            final(self).path == old(self).path,
            final(self).path_str == old(self).path_str,
            final(self).source == old(self).source,
            final(self).format == old(self).format,
            final(self).json_value == old(self).json_value,
            final(self).is_toml == old(self).is_toml,
            final(self).selected_page == old(self).selected_page,
    {
        match written {
            Ok(()) => {
                self.is_dirty = false;
                self.err_str = None;
            },
            Err(e) => {
                proof {
                    reveal_strlit("save failed: ");
                    assert("save failed: "@ =~= message_save_failed());
                }
                let mut msg = "save failed: ".to_owned();
                msg.append(e.as_str());
                self.err_str = Some(msg);
            },
        }
    }

    /// Forgets what was loaded, before the file is read again.
    pub fn load_start(&mut self)
        ensures
            final(self).source@.len() == 0,
            final(self).format@.len() == 0,
            final(self).json_value is None,
            final(self).err_str is None,
            final(self).id == old(self).id,
            final(self).name == old(self).name,
            final(self).path == old(self).path,
            final(self).path_str == old(self).path_str,
            final(self).is_toml == old(self).is_toml,
            final(self).is_dirty == old(self).is_dirty,
            final(self).selected_page == old(self).selected_page,
    {
        self.source = String::new();
        self.format = String::new();
        self.json_value = None;
        self.err_str = None;
    }

    /// Takes the text read from `path` (`None` where reading failed): it is
    /// parsed after the path's extension and, if it parses, becomes the
    /// saved source.
    pub fn load_done(&mut self, path: &str, read: Option<String>)
        ensures
            match read {
                None => (final(self).err_str matches Some(e) && e@ == message_load_failed())
                    && final(self).source == old(self).source && final(self).is_toml
                    == old(self).is_toml && final(self).is_dirty == old(self).is_dirty
                    && final(self).json_value == old(self).json_value && final(self).format
                    == old(self).format,
                Some(text) => {
                    let mid = ConfigFileData { is_toml: is_toml_path(path@), ..*old(self) };
                    let ok = parse_error_of(mid.is_toml, text@) is None;
                    &&& parsed_into(mid, with_edit_state(*final(self), mid), text@, ok)
                    &&& ok ==> final(self).source == text && !final(self).is_dirty
                    &&& !ok ==> final(self).source == old(self).source && final(self).is_dirty
                        == old(self).is_dirty
                },
            },
            final(self).id == old(self).id,
            final(self).name == old(self).name,
            final(self).path == old(self).path,
            final(self).path_str == old(self).path_str,
            final(self).selected_page == old(self).selected_page,
    {
        match read {
            None => {
                proof {
                    reveal_strlit("failed to load config file");
                    assert("failed to load config file"@ =~= message_load_failed());
                }
                self.err_str = Some("failed to load config file".to_owned());
            },
            Some(text) => {
                self.is_toml = has_toml_extension(path);
                let ghost mid = *self;
                let ok = self.parse_source_into_self(text.as_str());
                let ghost parsed = *self;
                if ok {
                    self.source = text;
                    self.is_dirty = false;
                }
                assert(with_edit_state(*self, mid) == parsed);
            },
        }
    }

    /// The source was edited: it is unsaved and parsed again.
    pub fn source_edited(&mut self)
        ensures
            final(self).is_dirty,
            parsed_into(
                marked_edited(*old(self)),
                *final(self),
                old(self).source@,
                parse_error_of(old(self).is_toml, old(self).source@) is None,
            ),
    {
        self.is_dirty = true;
        self.err_str = None;
        let source = self.source.clone();
        let _ = self.parse_source_into_self(source.as_str());
    }

    /// The path was edited: the trimmed text is the path, or none if empty.
    pub fn path_edited(&mut self)
        ensures
            ({
                let typed = trim_white(old(self).path_str@);
                if typed.len() == 0 {
                    final(self).path is None
                } else {
                    final(self).path matches Some(p) && p@ == typed
                }
            }),
            *final(self) == (ConfigFileData { path: final(self).path, ..*old(self) }),
    {
        let typed = str_trim(self.path_str.as_str());
        if typed.is_empty() {
            self.path = None;
        } else {
            self.path = Some(typed.to_owned());
        }
    }

    /// Opening a session starts by clearing the error; it answers whether
    /// unsaved edits must be saved first.
    pub fn open_session_start(&mut self) -> (must_save: bool)
        ensures
            must_save == old(self).is_dirty,
            *final(self) == (ConfigFileData { err_str: None, ..*old(self) }),
    {
        self.err_str = None;
        self.is_dirty
    }

    /// Opening a session ends with a connect request for this file's path,
    /// unless saving failed (an error is shown) or there is no path.
    pub fn open_session_finish(&mut self, events: &mut VecDeque<Event>)
        ensures
            old(self).err_str is Some ==> *final(self) == *old(self) && final(events)@ == old(
                events,
            )@,
            old(self).err_str is None ==> match old(self).path {
                Some(p) => *final(self) == *old(self) && final(events)@ == old(events)@.push(
                    Event::Connect(Box::new((old(self).id, p))),
                ),
                None => final(events)@ == old(events)@ && (final(self).err_str matches Some(e)
                    && e@ == message_save_first()) && *final(self) == (ConfigFileData {
                    err_str: final(self).err_str,
                    ..*old(self)
                }),
            },
    {
        if self.err_str.is_some() {
            return;
        }
        match &self.path {
            Some(p) => {
                events.push_back(Event::Connect(Box::new((self.id, p.clone()))));
            },
            None => {
                proof {
                    reveal_strlit("Enter a file path below and save first.");
                    assert("Enter a file path below and save first."@ =~= message_save_first());
                }
                self.err_str = Some("Enter a file path below and save first.".to_owned());
            },
        }
    }
}

pub open spec fn default_file_name() -> Seq<char> {
    seq!['n', 'e', 'w', ' ', 'f', 'i', 'l', 'e']
}

impl ConfigFileData {
    /// A config file for a path picked in a file dialog, named after the
    /// file (without extension), or `new file` when it has no name.
    pub fn for_picked_path(path: String) -> (r: Self)
        ensures
            r.name@ == (match path_file_stem(path@) {
                Some(stem) => stem,
                None => default_file_name(),
            }),
            r.id == 0,
            r.path == Some(path),
            r.path_str == path,
            r.is_toml == is_toml_path(path@),
            is_blank(r),
    {
        let name = match file_stem_of(path.as_str()) {
            None => {
                proof {
                    reveal_strlit("new file");
                    assert("new file"@ =~= default_file_name());
                }
                "new file".to_owned()
            },
            Some(s) => s,
        };
        ConfigFileData::new(name, path)
    }
}

impl ConfigFileData {
    /// The config file that an archive entry restores; it always succeeds.
    pub fn try_from(value: &ArchiveConfigFileData) -> (r: Result<Self, String>)
        ensures
            r matches Ok(c) && c.id == 0 && restored_from(c, *value),
    {
        let path_str = value.path.clone();
        let path = if path_str.as_str().is_empty() {
            None
        } else {
            Some(path_str.clone())
        };
        let is_toml = match &path {
            Some(p) => has_toml_extension(p.as_str()),
            None => false,
        };
        Ok(ConfigFileData::blank(value.name.clone(), path, path_str, is_toml))
    }
}

// ---- the page ----

/// An entry of the (reorderable) list of config files.
#[derive(Hash, Debug)]
pub struct DndItem {
    pub id: u64,
}

/// The session page.
pub struct PageSession {
    pub events: VecDeque<Event>,
    pub connected_config_file_id: Option<u64>,
    pub selected_config_file_id: u64,
    pub config_file_id_count: u64,
    pub config_files: BTreeMap<u64, ConfigFileData>,
    pub dnd_items: Vec<DndItem>,
    pub session_info: Option<SessionInfoData>,
}

impl Default for PageSession {
    fn default() -> (r: Self)
        ensures
            session_wf(r),
            r.events@.len() == 0,
            r.connected_config_file_id is None,
            r.selected_config_file_id == 0,
            r.config_file_id_count == 0,
            r.config_files@ == Map::<u64, ConfigFileData>::empty(),
            r.dnd_items@.len() == 0,
            r.session_info is None,
    {
        PageSession {
            events: VecDeque::new(),
            connected_config_file_id: None,
            selected_config_file_id: 0,
            config_file_id_count: 0,
            config_files: BTreeMap::new(),
            dnd_items: Vec::new(),
            session_info: None,
        }
    }
}

/// The ids of the list, in order.
pub open spec fn dnd_ids(s: Seq<DndItem>) -> Seq<u64> {
    s.map_values(|d: DndItem| d.id)
}

/// The archive entries of the files listed in `order` that `files` holds, in
/// list order.
pub open spec fn exported(order: Seq<u64>, files: Map<u64, ConfigFileData>) -> Seq<
    (Seq<char>, Seq<char>),
>
    decreases order.len(),
{
    if order.len() == 0 {
        seq![]
    } else {
        let rest = exported(order.drop_last(), files);
        let id = order.last();
        if files.contains_key(id) {
            rest.push(archive_of(files[id]))
        } else {
            rest
        }
    }
}

/// The view of a saved page.
pub open spec fn archive_page_view(a: ArchivePageSession) -> Seq<(Seq<char>, Seq<char>)> {
    a.config_files@.map_values(|c: ArchiveConfigFileData| archive_view(c))
}

/// Ids never exceed the counter, so a new id is fresh.
pub open spec fn session_wf(p: PageSession) -> bool {
    &&& forall|i: int| 0 <= i < p.dnd_items@.len() ==> #[trigger] p.dnd_items@[i].id <= p.config_file_id_count
    &&& forall|k: u64| #[trigger] p.config_files@.contains_key(k) ==> k <= p.config_file_id_count
}

/// Adding a file: it gets the next id, is selected, and goes to the end of
/// the list.
pub open spec fn add_step(a: PageSession, b: PageSession, c: ConfigFileData) -> bool {
    let id = (a.config_file_id_count + 1) as u64;
    &&& b.config_file_id_count == id
    &&& b.selected_config_file_id == id
    &&& b.config_files@ == a.config_files@.insert(id, ConfigFileData { id, ..c })
    &&& b.dnd_items@ == a.dnd_items@.push(DndItem { id })
    &&& b.events == a.events
    &&& b.connected_config_file_id == a.connected_config_file_id
    &&& b.session_info == a.session_info
}

/// Removing the selected file, unless it is the last one or has the open
/// session: it leaves the files and its first entry leaves the list.
pub open spec fn del_step(a: PageSession, b: PageSession) -> bool {
    let id = a.selected_config_file_id;
    if a.config_files@.len() < 2 || a.connected_config_file_id == Some(id) {
        b == a
    } else {
        &&& b.config_files@ == a.config_files@.remove(id)
        &&& b.dnd_items@ == match first_index(dnd_ids(a.dnd_items@), id) {
            Some(i) => a.dnd_items@.remove(i),
            None => a.dnd_items@,
        }
        &&& b.events == a.events
        &&& b.connected_config_file_id == a.connected_config_file_id
        &&& b.selected_config_file_id == a.selected_config_file_id
        &&& b.config_file_id_count == a.config_file_id_count
        &&& b.session_info == a.session_info
    }
}

/// Index of the first occurrence of `x`.
pub open spec fn first_index(s: Seq<u64>, x: u64) -> Option<int>
    decreases s.len(),
{
    if s.len() == 0 {
        None
    } else if s[0] == x {
        Some(0)
    } else {
        match first_index(s.drop_first(), x) {
            Some(i) => Some(i + 1),
            None => None,
        }
    }
}

proof fn lemma_first_index(s: Seq<u64>, x: u64)
    ensures
        match first_index(s, x) {
            Some(i) => 0 <= i < s.len() && s[i] == x && forall|k: int| 0 <= k < i ==> #[trigger] s[k] != x,
            None => forall|k: int| 0 <= k < s.len() ==> #[trigger] s[k] != x,
        },
    decreases s.len(),
{
    if s.len() > 0 {
        lemma_first_index(s.drop_first(), x);
        assert forall|k: int| 1 <= k < s.len() implies #[trigger] s[k] == s.drop_first()[k - 1] by {}
    }
}

/// Loading a saved page: the files are replaced by fresh ones restored from
/// the archive, in order, with the next ids; the list keeps its old entries
/// (whose files are gone) and gets the new ones at its end.
pub open spec fn load_step(a: PageSession, b: PageSession, archive: Seq<ArchiveConfigFileData>) -> bool {
    let n = archive.len();
    let base = a.config_file_id_count;
    &&& b.config_file_id_count == base + n
    &&& b.selected_config_file_id == (if n == 0 { 0 } else { base + n })
    &&& b.config_files@.dom() == Set::new(|k: u64| base < k <= base + n)
    &&& forall|k: int|
        0 <= k < n ==> {
            let c = #[trigger] b.config_files@[(base + k + 1) as u64];
            &&& c.id == base + k + 1
            &&& restored_from(c, archive[k])
        }
    &&& b.dnd_items@.len() == a.dnd_items@.len() + n
    &&& b.dnd_items@.take(a.dnd_items@.len() as int) == a.dnd_items@
    &&& forall|k: int| 0 <= k < n ==> #[trigger] b.dnd_items@[a.dnd_items@.len() + k].id == base + k + 1
    &&& b.events == a.events
    &&& b.connected_config_file_id == a.connected_config_file_id
    &&& b.session_info == a.session_info
}

impl PageSession {
    /// Adds a config file (see `add_step`).
    pub fn add_config_file(&mut self, config_file_data: ConfigFileData)
        requires
            old(self).config_file_id_count < u64::MAX,
        ensures
            session_wf(*old(self)) ==> session_wf(*final(self)),
            add_step(*old(self), *final(self), config_file_data),
    {
        let ghost c0 = config_file_data;
        let mut config_file_data = config_file_data;
        self.config_file_id_count = self.config_file_id_count + 1;
        let id = self.config_file_id_count;
        self.selected_config_file_id = id;
        config_file_data.id = id;
        self.config_files.insert(id, config_file_data);
        self.dnd_items.push(DndItem { id });
        proof {
            if session_wf(*old(self)) {
                law_session_ids_fresh(*old(self), *self, c0, Seq::empty());
            }
        }
    }

    /// Removes the selected config file (see `del_step`).
    pub fn del_config_file(&mut self)
        ensures
            session_wf(*old(self)) ==> session_wf(*final(self)),
            del_step(*old(self), *final(self)),
    {
        if self.config_files.len() < 2 {
            return;
        }
        let remove_id = self.selected_config_file_id;
        if let Some(id) = self.connected_config_file_id {
            if id == remove_id {
                return;
            }
        }
        let _ = self.config_files.remove(&remove_id);
        proof {
            lemma_first_index(dnd_ids(self.dnd_items@), remove_id);
        }
        let mut i: usize = 0;
        while i < self.dnd_items.len() && self.dnd_items[i].id != remove_id
            invariant
                0 <= i <= self.dnd_items@.len(),
                self.dnd_items == old(self).dnd_items,
                forall|k: int| 0 <= k < i ==> #[trigger] self.dnd_items@[k].id != remove_id,
            decreases self.dnd_items@.len() - i,
        {
            i = i + 1;
        }
        if i < self.dnd_items.len() {
            assert(dnd_ids(self.dnd_items@)[i as int] == remove_id);
            assert forall|k: int| 0 <= k < i implies #[trigger] dnd_ids(self.dnd_items@)[k]
                != remove_id by {
                assert(dnd_ids(self.dnd_items@)[k] == self.dnd_items@[k].id);
            }
            assert(first_index(dnd_ids(self.dnd_items@), remove_id) == Some(i as int));
            self.dnd_items.remove(i);
        } else {
            assert forall|k: int| 0 <= k < dnd_ids(self.dnd_items@).len() implies #[trigger] dnd_ids(
                self.dnd_items@,
            )[k] != remove_id by {
                assert(dnd_ids(self.dnd_items@)[k] == self.dnd_items@[k].id);
            }
            assert(first_index(dnd_ids(self.dnd_items@), remove_id) is None);
        }
    }

    /// Whether a session is open.
    pub fn connected(&self) -> (r: bool)
        ensures
            r == self.connected_config_file_id is Some,
    {
        self.connected_config_file_id.is_some()
    }

    /// Sets which config file has the open session.
    pub fn set_connected(&mut self, connected_id: Option<u64>)
        ensures
            session_wf(*old(self)) ==> session_wf(*final(self)),
            *final(self) == (PageSession { connected_config_file_id: connected_id, ..*old(self) }),
    {
        self.connected_config_file_id = connected_id;
    }

    /// Takes the outcome of opening a session: on success that file is
    /// connected and its error cleared; on failure nothing is connected and
    /// the message is shown on that file.
    pub fn set_connect_result(&mut self, r: Result<u64, (u64, String)>)
        ensures
            session_wf(*old(self)) ==> session_wf(*final(self)),
            match r {
                Ok(id) => final(self).connected_config_file_id == Some(id) && (if old(
                    self,
                ).config_files@.contains_key(id) {
                    final(self).config_files@ == old(self).config_files@.insert(
                        id,
                        ConfigFileData { err_str: None, ..old(self).config_files@[id] },
                    )
                } else {
                    final(self).config_files@ == old(self).config_files@
                }),
                Err((id, s)) => final(self).connected_config_file_id is None && (if old(
                    self,
                ).config_files@.contains_key(id) {
                    final(self).config_files@ == old(self).config_files@.insert(
                        id,
                        ConfigFileData { err_str: Some(s), ..old(self).config_files@[id] },
                    )
                } else {
                    final(self).config_files@ == old(self).config_files@
                }),
            },
            final(self).events == old(self).events,
            final(self).selected_config_file_id == old(self).selected_config_file_id,
            final(self).config_file_id_count == old(self).config_file_id_count,
            final(self).dnd_items == old(self).dnd_items,
            final(self).session_info == old(self).session_info,
    {
        match r {
            Ok(id) => {
                self.connected_config_file_id = Some(id);
                if let Some(mut cf) = self.config_files.remove(&id) {
                    cf.err_str = None;
                    self.config_files.insert(id, cf);
                    assert(self.config_files@ =~= old(self).config_files@.insert(
                        id,
                        ConfigFileData { err_str: None, ..old(self).config_files@[id] },
                    ));
                }
            },
            Err((id, s)) => {
                self.connected_config_file_id = None;
                if let Some(mut cf) = self.config_files.remove(&id) {
                    cf.err_str = Some(s);
                    self.config_files.insert(id, cf);
                    assert(self.config_files@ =~= old(self).config_files@.insert(
                        id,
                        ConfigFileData { err_str: Some(s), ..old(self).config_files@[id] },
                    ));
                }
            },
        }
    }

    /// Forgets all config files (the list order is kept).
    pub fn clean_all_config_file_data(&mut self)
        ensures
            session_wf(*old(self)) ==> session_wf(*final(self)),
            final(self).config_files@ == Map::<u64, ConfigFileData>::empty(),
            final(self).selected_config_file_id == 0,
            final(self).events == old(self).events,
            final(self).connected_config_file_id == old(self).connected_config_file_id,
            final(self).config_file_id_count == old(self).config_file_id_count,
            final(self).dnd_items == old(self).dnd_items,
            final(self).session_info == old(self).session_info,
    {
        self.selected_config_file_id = 0;
        self.config_files.clear();
    }

    /// Once per frame: while a session is open, asks for its info when none
    /// was asked yet or `elapsed_ms` (since the last request) reached 2 s,
    /// answering whether the timer restarts; without a session, forgets the
    /// info.
    pub fn refresh_session_info(&mut self, elapsed_ms: Option<u64>) -> (restart: bool)
        ensures
            session_wf(*old(self)) ==> session_wf(*final(self)),
            old(self).connected_config_file_id is Some ==> {
                let due = match elapsed_ms {
                    None => true,
                    Some(ms) => ms >= 2000,
                };
                &&& restart == due
                &&& final(self).events@ == (if due {
                    old(self).events@.push(Event::RequestSessionInfo)
                } else {
                    old(self).events@
                })
                &&& final(self).session_info == old(self).session_info
            },
            old(self).connected_config_file_id is None ==> !restart && final(self).events
                == old(self).events && final(self).session_info is None,
            final(self).connected_config_file_id == old(self).connected_config_file_id,
            final(self).selected_config_file_id == old(self).selected_config_file_id,
            final(self).config_file_id_count == old(self).config_file_id_count,
            final(self).config_files == old(self).config_files,
            final(self).dnd_items == old(self).dnd_items,
    {
        if self.connected_config_file_id.is_some() {
            let due = match elapsed_ms {
                None => true,
                Some(ms) => ms >= 2000,
            };
            if due {
                self.events.push_back(Event::RequestSessionInfo);
            }
            due
        } else {
            self.session_info = None;
            false
        }
    }

    /// The path of the selected config file when it has a path but nothing
    /// loaded yet (so it is read before it is shown).
    pub fn selected_needs_load(&self) -> (r: Option<String>)
        ensures
            match r {
                Some(p) => self.config_files@.contains_key(self.selected_config_file_id)
                    && self.config_files@[self.selected_config_file_id].source@.len() == 0
                    && self.config_files@[self.selected_config_file_id].path == Some(p),
                None => !(self.config_files@.contains_key(self.selected_config_file_id)
                    && self.config_files@[self.selected_config_file_id].source@.len() == 0
                    && self.config_files@[self.selected_config_file_id].path is Some),
            },
    {
        match self.config_files.get(&self.selected_config_file_id) {
            Some(c) => {
                if c.source.as_str().is_empty() {
                    match &c.path {
                        Some(p) => Some(p.clone()),
                        None => None,
                    }
                } else {
                    None
                }
            },
            None => None,
        }
    }

    /// Restores a saved page (see `load_step`).
    pub fn load(&mut self, archive: ArchivePageSession) -> (r: Result<(), String>)
        requires
            old(self).config_file_id_count + archive.config_files@.len() <= u64::MAX,
        ensures
            session_wf(*old(self)) ==> session_wf(*final(self)),
            r is Ok,
            load_step(*old(self), *final(self), archive.config_files@),
    {
        let n = archive.config_files.len();
        let mut data: Vec<ConfigFileData> = Vec::new();
        let mut i: usize = 0;
        while i < n
            invariant
                0 <= i <= n,
                n == archive.config_files@.len(),
                data@.len() == i,
                forall|k: int| 0 <= k < i ==> #[trigger] restored_from(data@[k], archive.config_files@[k]),
            decreases n - i,
        {
            let c = match ConfigFileData::try_from(&archive.config_files[i]) {
                Ok(c) => c,
                Err(e) => {
                    return Err(e);
                },
            };
            data.push(c);
            i = i + 1;
        }
        self.clean_all_config_file_data();
        let ghost a = *old(self);
        let ghost base = a.config_file_id_count;
        let mut j: usize = 0;
        while j < n
            invariant
                0 <= j <= n,
                n == archive.config_files@.len(),
                data@.len() == n - j,
                base + n <= u64::MAX,
                base == a.config_file_id_count,
                forall|k: int|
                    #![trigger archive.config_files@[k]]
                    j <= k < n ==> restored_from(data@[k - j], archive.config_files@[k]),
                self.config_file_id_count == base + j,
                self.selected_config_file_id == (if j == 0 { 0 } else { base + j }),
                self.config_files@.dom() == Set::new(|k: u64| base < k <= base + j),
                forall|k: int|
                    0 <= k < j ==> {
                        let c = #[trigger] self.config_files@[(base + k + 1) as u64];
                        &&& c.id == base + k + 1
                        &&& restored_from(c, archive.config_files@[k])
                    },
                self.dnd_items@.len() == a.dnd_items@.len() + j,
                self.dnd_items@.take(a.dnd_items@.len() as int) == a.dnd_items@,
                forall|k: int| 0 <= k < j ==> #[trigger] self.dnd_items@[a.dnd_items@.len() + k].id == base + k + 1,
                self.events == a.events,
                self.connected_config_file_id == a.connected_config_file_id,
                self.session_info == a.session_info,
            decreases n - j,
        {
            let ghost before = *self;
            let ghost before_data = data@;
            let c = data.remove(0);
            assert(restored_from(before_data[j - j], archive.config_files@[j as int]));
            assert(restored_from(c, archive.config_files@[j as int]));
            self.add_config_file(c);
            proof {
                let id = (base + j + 1) as u64;
                assert(self.config_files@.dom() =~= Set::new(|k: u64| base < k <= base + j + 1));
                assert forall|k: int| 0 <= k < j + 1 implies {
                    let c2 = #[trigger] self.config_files@[(base + k + 1) as u64];
                    &&& c2.id == base + k + 1
                    &&& restored_from(c2, archive.config_files@[k])
                } by {
                    if k < j {
                        assert(before.config_files@[(base + k + 1) as u64] == self.config_files@[(
                        base + k + 1) as u64]);
                    }
                }
                assert(self.dnd_items@.take(a.dnd_items@.len() as int) =~= a.dnd_items@) by {
                    assert(self.dnd_items@ == before.dnd_items@.push(DndItem { id }));
                    assert forall|k: int| 0 <= k < a.dnd_items@.len() implies self.dnd_items@[k]
                        == a.dnd_items@[k] by {
                        assert(before.dnd_items@.take(a.dnd_items@.len() as int)[k] == a.dnd_items@[k]);
                    }
                }
                assert forall|k: int| 0 <= k < j + 1 implies #[trigger] self.dnd_items@[a.dnd_items@.len() + k].id
                    == base + k + 1 by {
                    if k < j {
                        assert(self.dnd_items@[a.dnd_items@.len() + k] == before.dnd_items@[a.dnd_items@.len() + k]);
                    }
                }
                assert forall|k: int|
                    #![trigger archive.config_files@[k]]
                    j + 1 <= k < n implies restored_from(data@[k - (j + 1)], archive.config_files@[k]) by {
                    assert(data@[k - (j + 1)] == before_data[k - j]);
                }
            }
            j = j + 1;
        }
        proof {
            if session_wf(a) {
                law_session_ids_fresh(a, *self, arbitrary(), archive.config_files@);
            }
        }
        Ok(())
    }
}

impl ArchivePageSession {
    /// What the app state saves of the page: the files in list order.
    pub fn from(value: &PageSession) -> (r: ArchivePageSession)
        ensures
            archive_page_view(r) == exported(dnd_ids(value.dnd_items@), value.config_files@),
    {
        let mut config_files: Vec<ArchiveConfigFileData> = Vec::new();
        let mut i: usize = 0;
        while i < value.dnd_items.len()
            invariant
                0 <= i <= value.dnd_items@.len(),
                config_files@.map_values(|c: ArchiveConfigFileData| archive_view(c)) == exported(
                    dnd_ids(value.dnd_items@).take(i as int),
                    value.config_files@,
                ),
            decreases value.dnd_items@.len() - i,
        {
            let id = value.dnd_items[i].id;
            let ghost before = config_files@;
            proof {
                let o = dnd_ids(value.dnd_items@);
                assert(o.take(i + 1).drop_last() =~= o.take(i as int));
                assert(o.take(i + 1).last() == id);
            }
            if let Some(d) = value.config_files.get(&id) {
                config_files.push(ArchiveConfigFileData::from(d));
                assert(config_files@.map_values(|c: ArchiveConfigFileData| archive_view(c))
                    =~= before.map_values(|c: ArchiveConfigFileData| archive_view(c)).push(
                    archive_of(*d),
                ));
            }
            i = i + 1;
        }
        proof {
            assert(dnd_ids(value.dnd_items@).take(value.dnd_items@.len() as int) =~= dnd_ids(
                value.dnd_items@,
            ));
        }
        ArchivePageSession { config_files }
    }
}

proof fn lemma_exported_append(o1: Seq<u64>, o2: Seq<u64>, f: Map<u64, ConfigFileData>)
    ensures
        exported(o1 + o2, f) == exported(o1, f) + exported(o2, f),
    decreases o2.len(),
{
    if o2.len() == 0 {
        assert(o1 + o2 =~= o1);
        assert(exported(o1, f) + exported(o2, f) =~= exported(o1, f));
    } else {
        lemma_exported_append(o1, o2.drop_last(), f);
        assert((o1 + o2).drop_last() =~= o1 + o2.drop_last());
        assert((o1 + o2).last() == o2.last());
        let id = o2.last();
        if f.contains_key(id) {
            assert(exported(o1, f) + exported(o2.drop_last(), f).push(archive_of(f[id])) =~= (
            exported(o1, f) + exported(o2.drop_last(), f)).push(archive_of(f[id])));
        }
    }
}

proof fn lemma_exported_absent(o: Seq<u64>, f: Map<u64, ConfigFileData>)
    requires
        forall|k: int| 0 <= k < o.len() ==> !f.contains_key(#[trigger] o[k]),
    ensures
        exported(o, f) == Seq::<(Seq<char>, Seq<char>)>::empty(),
    decreases o.len(),
{
    if o.len() > 0 {
        assert(!f.contains_key(o[o.len() - 1]));
        lemma_exported_absent(o.drop_last(), f);
    }
}

proof fn lemma_exported_restored(
    o: Seq<u64>,
    f: Map<u64, ConfigFileData>,
    archive: Seq<ArchiveConfigFileData>,
)
    requires
        o.len() == archive.len(),
        forall|k: int| 0 <= k < o.len() ==> f.contains_key(#[trigger] o[k]),
        forall|k: int| 0 <= k < o.len() ==> restored_from(f[#[trigger] o[k]], archive[k]),
    ensures
        exported(o, f) == archive.map_values(|c: ArchiveConfigFileData| archive_view(c)),
    decreases o.len(),
{
    if o.len() > 0 {
        let m = (o.len() - 1) as int;
        assert forall|k: int| 0 <= k < m implies f.contains_key(#[trigger] o.drop_last()[k]) by {
            assert(o.drop_last()[k] == o[k]);
        }
        assert forall|k: int| 0 <= k < m implies restored_from(
            f[#[trigger] o.drop_last()[k]],
            archive.drop_last()[k],
        ) by {
            assert(o.drop_last()[k] == o[k]);
        }
        lemma_exported_restored(o.drop_last(), f, archive.drop_last());
        assert(f.contains_key(o[m]));
        let c = f[o[m]];
        assert(restored_from(c, archive[m]));
        assert(archive_of(c) == archive_view(archive[m])) by {
            if c.path is None {
                assert(archive[m].path@ =~= Seq::<char>::empty());
            }
        }
        assert(archive.map_values(|c: ArchiveConfigFileData| archive_view(c)) =~= archive.drop_last().map_values(
            |c: ArchiveConfigFileData| archive_view(c),
        ).push(archive_view(archive[m])));
    }
}

/// Saving the page right after loading a saved page gives that saved page
/// back: the same files, names and paths, in the same order.
pub proof fn law_archive_round_trip(a: PageSession, b: PageSession, archive: ArchivePageSession)
    requires
        session_wf(a),
        load_step(a, b, archive.config_files@),
    ensures
        exported(dnd_ids(b.dnd_items@), b.config_files@) == archive_page_view(archive),
{
    let n = archive.config_files@.len();
    let base = a.config_file_id_count;
    let old_len = a.dnd_items@.len();
    let ids = dnd_ids(b.dnd_items@);
    let o1 = ids.take(old_len as int);
    let o2 = ids.skip(old_len as int);
    assert(ids =~= o1 + o2);
    lemma_exported_append(o1, o2, b.config_files@);
    assert forall|k: int| 0 <= k < o1.len() implies !b.config_files@.contains_key(#[trigger] o1[k]) by {
        assert(o1[k] == b.dnd_items@[k].id);
        assert(b.dnd_items@.take(old_len as int)[k] == a.dnd_items@[k]);
        assert(a.dnd_items@[k].id <= base);
    }
    lemma_exported_absent(o1, b.config_files@);
    assert forall|k: int| 0 <= k < o2.len() implies #[trigger] o2[k] == base + k + 1 by {
        assert(o2[k] == b.dnd_items@[old_len + k].id);
    }
    assert forall|k: int| 0 <= k < o2.len() implies b.config_files@.contains_key(#[trigger] o2[k]) by {
        assert(o2[k] == base + k + 1);
    }
    assert forall|k: int| 0 <= k < o2.len() implies restored_from(
        b.config_files@[#[trigger] o2[k]],
        archive.config_files@[k],
    ) by {
        assert(o2[k] == base + k + 1);
        let c = b.config_files@[(base + k + 1) as u64];
        assert(restored_from(c, archive.config_files@[k]));
    }
    lemma_exported_restored(o2, b.config_files@, archive.config_files@);
    assert(exported(o1, b.config_files@) + exported(o2, b.config_files@) =~= exported(
        o2,
        b.config_files@,
    ));
}

/// Adding, removing and loading config files keep every id at most the
/// counter, so the next id is always fresh.
pub proof fn law_session_ids_fresh(
    a: PageSession,
    b: PageSession,
    c: ConfigFileData,
    archive: Seq<ArchiveConfigFileData>,
)
    requires
        session_wf(a),
        a.config_file_id_count + archive.len() <= u64::MAX,
        (add_step(a, b, c) && a.config_file_id_count < u64::MAX) || del_step(a, b) || load_step(
            a,
            b,
            archive,
        ),
    ensures
        session_wf(b),
{
    if add_step(a, b, c) && a.config_file_id_count < u64::MAX {
        assert forall|i: int| 0 <= i < b.dnd_items@.len() implies #[trigger] b.dnd_items@[i].id
            <= b.config_file_id_count by {
            if i < a.dnd_items@.len() {
                assert(b.dnd_items@[i] == a.dnd_items@[i]);
            }
        }
    } else if del_step(a, b) {
        let id = a.selected_config_file_id;
        if !(a.config_files@.len() < 2 || a.connected_config_file_id == Some(id)) {
            lemma_first_index(dnd_ids(a.dnd_items@), id);
            if let Some(p) = first_index(dnd_ids(a.dnd_items@), id) {
                assert forall|i: int| 0 <= i < b.dnd_items@.len() implies #[trigger] b.dnd_items@[i].id
                    <= b.config_file_id_count by {
                    if i < p {
                        assert(b.dnd_items@[i] == a.dnd_items@[i]);
                    } else {
                        assert(b.dnd_items@[i] == a.dnd_items@[i + 1]);
                    }
                }
            }
        }
    } else {
        let base = a.config_file_id_count;
        assert forall|i: int| 0 <= i < b.dnd_items@.len() implies #[trigger] b.dnd_items@[i].id
            <= b.config_file_id_count by {
            if i < a.dnd_items@.len() {
                assert(b.dnd_items@.take(a.dnd_items@.len() as int)[i] == a.dnd_items@[i]);
            } else {
                let k = i - a.dnd_items@.len();
                assert(b.dnd_items@[a.dnd_items@.len() + k].id == base + k + 1);
            }
        }
        assert forall|k: u64| #[trigger] b.config_files@.contains_key(k) implies k
            <= b.config_file_id_count by {
            assert(b.config_files@.dom().contains(k));
        }
    }
}

/// Removing a config file never removes the one with the open session, nor
/// the last one.
pub proof fn law_del_keeps_connected_and_one(a: PageSession, b: PageSession)
    requires
        del_step(a, b),
    ensures
        a.connected_config_file_id is Some && a.config_files@.contains_key(
            a.connected_config_file_id->0,
        ) ==> b.config_files@.contains_key(a.connected_config_file_id->0),
        a.config_files@.len() >= 1 && a.config_files@.dom().finite() ==> b.config_files@.len() >= 1,
{
    if a.config_files@.len() >= 2 && a.config_files@.dom().finite() {
        let id = a.selected_config_file_id;
        if a.connected_config_file_id != Some(id) {
            if a.config_files@.contains_key(id) {
                assert(b.config_files@.len() == a.config_files@.len() - 1);
            } else {
                assert(b.config_files@ =~= a.config_files@);
            }
        }
    }
}

/// The saved page holds one entry for each listed id that has a file, in
/// list order, whatever else the file holds (unsaved edits, errors): its
/// name and path.
pub proof fn law_archive_lists_every_file(order: Seq<u64>, files: Map<u64, ConfigFileData>)
    ensures
        ({
            let kept = order.filter(|id: u64| files.contains_key(id));
            let saved = exported(order, files);
            &&& saved.len() == kept.len()
            &&& forall|i: int|
                0 <= i < kept.len() ==> #[trigger] saved[i] == (
                    files[kept[i]].name@,
                    path_text(files[kept[i]].path),
                )
        }),
    decreases order.len(),
{
    reveal(Seq::filter);
    if order.len() > 0 {
        law_archive_lists_every_file(order.drop_last(), files);
    }
}

/// Removing the selected file, when there are at least two and it has no
/// open session: it leaves the files (one fewer, the others unchanged), and
/// the first entry of the list with its id leaves the list.
pub proof fn law_del_removes_selected(a: PageSession, b: PageSession)
    requires
        del_step(a, b),
        a.config_files@.len() >= 2,
        a.connected_config_file_id != Some(a.selected_config_file_id),
    ensures
        !b.config_files@.contains_key(a.selected_config_file_id),
        a.config_files@.contains_key(a.selected_config_file_id) ==> b.config_files@.len()
            == a.config_files@.len() - 1,
        forall|k: u64|
            k != a.selected_config_file_id ==> (#[trigger] b.config_files@.contains_key(k)
                == a.config_files@.contains_key(k) && (a.config_files@.contains_key(k)
                ==> b.config_files@[k] == a.config_files@[k])),
        (exists|i: int|
            0 <= i < a.dnd_items@.len() && #[trigger] a.dnd_items@[i].id == a.selected_config_file_id)
            ==> (exists|p: int|
            0 <= p < a.dnd_items@.len() && a.dnd_items@[p].id == a.selected_config_file_id && (
            forall|j: int| 0 <= j < p ==> #[trigger] a.dnd_items@[j].id != a.selected_config_file_id)
                && b.dnd_items@ == a.dnd_items@.remove(p)),
{
    let id = a.selected_config_file_id;
    lemma_first_index(dnd_ids(a.dnd_items@), id);
    if exists|i: int| 0 <= i < a.dnd_items@.len() && #[trigger] a.dnd_items@[i].id == id {
        let i = choose|i: int| 0 <= i < a.dnd_items@.len() && #[trigger] a.dnd_items@[i].id == id;
        assert(dnd_ids(a.dnd_items@)[i] == id);
        let p = first_index(dnd_ids(a.dnd_items@), id)->0;
        assert forall|j: int| 0 <= j < p implies #[trigger] a.dnd_items@[j].id != id by {
            assert(dnd_ids(a.dnd_items@)[j] == a.dnd_items@[j].id);
        }
        assert(dnd_ids(a.dnd_items@)[p] == a.dnd_items@[p].id);
    }
}

} // verus!

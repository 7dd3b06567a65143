//! The liveliness page: tokens that this session declares, one liveliness
//! subscriber, and the log of the appearances and disappearances it reports.

use std::collections::VecDeque;
use vstd::prelude::*;

use crate::task_zenoh::{LivelinessSubData, LivelinessTokenData};
use crate::text::{
    dec_digits, digit_char, padded_decimal, push_char, push_padded_decimal, str_trim, trim_white,
    zeros,
};

verus! {

/// The message that zenoh gives for a text that is not a key expression, or
/// `None` for a key expression.
pub uninterp spec fn key_expr_error(text: Seq<char>) -> Option<Seq<char>>;

/// Calls `<zenoh::key_expr::OwnedKeyExpr as FromStr>::from_str`: `Ok` for a
/// valid key expression, else the error's message.
#[verifier::external_body]
pub(crate) fn check_key_expr(text: &str) -> (r: Result<(), String>)
    ensures
        match r {
            Ok(()) => key_expr_error(text@) is None,
            Err(e) => key_expr_error(text@) == Some(e@),
        },
{
    match <zenoh::key_expr::OwnedKeyExpr as std::str::FromStr>::from_str(text) {
        Ok(_) => Ok(()),
        Err(e) => Err(e.to_string()),
    }
}

/// What the page asks of the session task.
pub enum Event {
    DeclareToken(Box<LivelinessTokenData>),
    UndeclareToken(u64),
    AddSub(Box<LivelinessSubData>),
    DelSub(u64),
}

/// Whether a liveliness sample reports an appearance or a disappearance.
#[derive(Clone, Copy, PartialEq, Eq, Structural)]
pub enum SampleKind {
    Put,
    Delete,
}

/// A moment as the time elapsed since the Unix epoch.
#[derive(Clone, Copy, PartialEq, Eq, Structural)]
pub struct Timestamp {
    pub secs: u64,
    pub millis: u32,
}

/// A token that the page asked to declare.
pub struct TokenEntry {
    pub id: u64,
    pub key_expr: String,
    pub declared: bool,
    pub err_str: Option<String>,
}

/// One appearance or disappearance.
pub struct LivelinessEvent {
    pub key: String,
    pub kind: SampleKind,
    pub time: Timestamp,
}

/// The liveliness page.
pub struct PageLiveliness {
    pub events: VecDeque<Event>,
    pub token_id_count: u64,
    pub tokens: Vec<TokenEntry>,
    pub new_token_key: String,
    pub token_err: Option<String>,
    pub sub_id: u64,
    pub sub_key: String,
    pub subscribed: bool,
    pub sub_err: Option<String>,
    pub liveliness_events: VecDeque<LivelinessEvent>,
    pub max_events: usize,
}

pub open spec fn default_token_key() -> Seq<char> {
    seq![
        'z', 'e', 'n', 'o', 'h', '-', 'h', 'a', 'm', 'm', 'e', 'r', '/', 'l', 'i', 'v', 'e', 'l',
        'i', 'n', 'e', 's', 's',
    ]
}

pub open spec fn default_sub_key() -> Seq<char> {
    seq!['z', 'e', 'n', 'o', 'h', '-', 'h', 'a', 'm', 'm', 'e', 'r', '/', '*', '*']
}

impl Default for PageLiveliness {
    fn default() -> (r: Self)
        ensures
            r.events@.len() == 0,
            r.token_id_count == 0,
            r.tokens@.len() == 0,
            r.new_token_key@ == default_token_key(),
            r.token_err is None,
            r.sub_id == 0,
            r.sub_key@ == default_sub_key(),
            !r.subscribed,
            r.sub_err is None,
            r.liveliness_events@.len() == 0,
            r.max_events == 500,
    {
        proof {
            reveal_strlit("zenoh-hammer/liveliness");
            reveal_strlit("zenoh-hammer/**");
            assert("zenoh-hammer/liveliness"@ =~= default_token_key());
            assert("zenoh-hammer/**"@ =~= default_sub_key());
        }
        PageLiveliness {
            events: VecDeque::new(),
            token_id_count: 0,
            tokens: Vec::new(),
            new_token_key: "zenoh-hammer/liveliness".to_owned(),
            token_err: None,
            sub_id: 0,
            sub_key: "zenoh-hammer/**".to_owned(),
            subscribed: false,
            sub_err: None,
            liveliness_events: VecDeque::new(),
            max_events: 500,
        }
    }
}

/// Index of the first token with the given id.
pub open spec fn token_pos(s: Seq<TokenEntry>, id: u64) -> Option<int>
    decreases s.len(),
{
    if s.len() == 0 {
        None
    } else if s[0].id == id {
        Some(0)
    } else {
        match token_pos(s.drop_first(), id) {
            Some(i) => Some(i + 1),
            None => None,
        }
    }
}

proof fn lemma_token_pos(s: Seq<TokenEntry>, id: u64)
    ensures
        match token_pos(s, id) {
            Some(i) => 0 <= i < s.len() && s[i].id == id && forall|k: int|
                0 <= k < i ==> #[trigger] s[k].id != id,
            None => forall|k: int| 0 <= k < s.len() ==> #[trigger] s[k].id != id,
        },
    decreases s.len(),
{
    if s.len() > 0 {
        lemma_token_pos(s.drop_first(), id);
        assert forall|k: int| 1 <= k < s.len() implies #[trigger] s[k].id == s.drop_first()[k
            - 1].id by {}
    }
}

/// Token ids lie in `1..=token_id_count` and increase along the list, so
/// they are distinct.
pub open spec fn tokens_wf(p: PageLiveliness) -> bool {
    &&& forall|i: int|
        0 <= i < p.tokens@.len() ==> 1 <= #[trigger] p.tokens@[i].id <= p.token_id_count
    &&& forall|i: int, j: int|
        0 <= i < j < p.tokens@.len() ==> #[trigger] p.tokens@[i].id < #[trigger] p.tokens@[j].id
}

/// `b` equals `a` on everything that belongs to the subscriber.
pub open spec fn same_subscriber(a: PageLiveliness, b: PageLiveliness) -> bool {
    &&& b.sub_id == a.sub_id
    &&& b.sub_key == a.sub_key
    &&& b.subscribed == a.subscribed
    &&& b.sub_err == a.sub_err
    &&& b.liveliness_events == a.liveliness_events
    &&& b.max_events == a.max_events
}

/// `b` equals `a` on everything that belongs to the tokens.
pub open spec fn same_tokens(a: PageLiveliness, b: PageLiveliness) -> bool {
    &&& b.token_id_count == a.token_id_count
    &&& b.tokens == a.tokens
    &&& b.new_token_key == a.new_token_key
    &&& b.token_err == a.token_err
}

/// Declaring the token typed in the page: the trimmed key, if zenoh takes it
/// as a key expression, gets the next id, a pending entry and a request to the
/// session task; otherwise zenoh's message is shown.
pub open spec fn declare_token_step(a: PageLiveliness, b: PageLiveliness) -> bool {
    let key = trim_white(a.new_token_key@);
    &&& same_subscriber(a, b)
    &&& b.new_token_key == a.new_token_key
    &&& match key_expr_error(key) {
        None => {
            let id = (a.token_id_count + 1) as u64;
            &&& b.token_err is None
            &&& b.token_id_count == id
            &&& b.tokens@.len() == a.tokens@.len() + 1
            &&& b.tokens@.drop_last() == a.tokens@
            &&& b.tokens@.last().id == id
            &&& b.tokens@.last().key_expr@ == key
            &&& !b.tokens@.last().declared
            &&& b.tokens@.last().err_str is None
            &&& b.events@.len() == a.events@.len() + 1
            &&& b.events@.drop_last() == a.events@
            &&& b.events@.last() matches Event::DeclareToken(d) && d.id == id && d.key_expr@ == key
        },
        Some(e) => {
            &&& b.token_err matches Some(s) && s@ == e
            &&& b.token_id_count == a.token_id_count
            &&& b.tokens == a.tokens
            &&& b.events == a.events
        },
    }
}

/// Removing a token: its first entry leaves the list and the session task is
/// asked to undeclare it.
pub open spec fn remove_token_step(a: PageLiveliness, b: PageLiveliness, id: u64) -> bool {
    &&& same_subscriber(a, b)
    &&& b.token_id_count == a.token_id_count
    &&& b.new_token_key == a.new_token_key
    &&& b.token_err == a.token_err
    &&& b.tokens@ == match token_pos(a.tokens@, id) {
        Some(i) => a.tokens@.remove(i),
        None => a.tokens@,
    }
    &&& b.events@ == a.events@.push(Event::UndeclareToken(id))
}

/// Pressing the subscribe button: when not subscribed, the trimmed key (if a
/// key expression) is subscribed under the next id; when subscribed, the
/// subscription is dropped.
pub open spec fn toggle_subscription_step(a: PageLiveliness, b: PageLiveliness) -> bool {
    &&& same_tokens(a, b)
    &&& b.sub_key == a.sub_key
    &&& b.liveliness_events == a.liveliness_events
    &&& b.max_events == a.max_events
    &&& if !a.subscribed {
        let key = trim_white(a.sub_key@);
        match key_expr_error(key) {
            None => {
                &&& b.sub_id == a.sub_id + 1
                &&& b.sub_err is None
                &&& b.subscribed
                &&& b.events@.len() == a.events@.len() + 1
                &&& b.events@.drop_last() == a.events@
                &&& b.events@.last() matches Event::AddSub(d) && d.id == b.sub_id && d.key_expr@
                    == key
            },
            Some(e) => {
                &&& b.sub_id == a.sub_id
                &&& b.sub_err matches Some(s) && s@ == e
                &&& !b.subscribed
                &&& b.events == a.events
            },
        }
    } else {
        &&& b.sub_id == a.sub_id
        &&& b.sub_err == a.sub_err
        &&& !b.subscribed
        &&& b.events@ == a.events@.push(Event::DelSub(a.sub_id))
    }
}

/// The answer to a token declaration marks the first entry with that id.
pub open spec fn declare_token_res_step(
    a: PageLiveliness,
    b: PageLiveliness,
    id: u64,
    r: Result<(), String>,
) -> bool {
    &&& same_subscriber(a, b)
    &&& b.events == a.events
    &&& b.token_id_count == a.token_id_count
    &&& b.new_token_key == a.new_token_key
    &&& b.token_err == a.token_err
    &&& match token_pos(a.tokens@, id) {
        None => b.tokens@ == a.tokens@,
        Some(i) => {
            &&& b.tokens@.len() == a.tokens@.len()
            &&& forall|k: int| 0 <= k < a.tokens@.len() && k != i ==> #[trigger] b.tokens@[k] == a.tokens@[k]
            &&& b.tokens@[i].id == a.tokens@[i].id
            &&& b.tokens@[i].key_expr == a.tokens@[i].key_expr
            &&& match r {
                Ok(()) => b.tokens@[i].declared && b.tokens@[i].err_str is None,
                Err(e) => !b.tokens@[i].declared && b.tokens@[i].err_str == Some(e),
            }
        },
    }
}

/// A new event of the current subscription goes to the back of the log; when
/// the log already holds `max_events`, its oldest entry leaves.
pub open spec fn sub_cb_step(
    a: PageLiveliness,
    b: PageLiveliness,
    id: u64,
    key: Seq<char>,
    kind: SampleKind,
    now: Timestamp,
) -> bool {
    if id != a.sub_id {
        b == a
    } else {
        let kept = if a.liveliness_events@.len() >= a.max_events && a.liveliness_events@.len() > 0 {
            a.liveliness_events@.drop_first()
        } else {
            a.liveliness_events@
        };
        &&& same_tokens(a, b)
        &&& b.events == a.events
        &&& b.sub_id == a.sub_id
        &&& b.sub_key == a.sub_key
        &&& b.subscribed == a.subscribed
        &&& b.sub_err == a.sub_err
        &&& b.max_events == a.max_events
        &&& b.liveliness_events@.len() == kept.len() + 1
        &&& b.liveliness_events@.drop_last() == kept
        &&& b.liveliness_events@.last().key@ == key
        &&& b.liveliness_events@.last().kind == kind
        &&& b.liveliness_events@.last().time == now
    }
}

impl PageLiveliness {
    /// Declares the token whose key is typed in the page (see
    /// `declare_token_step`).
    pub fn declare_token(&mut self)
        requires
            old(self).token_id_count < u64::MAX,
        ensures
            declare_token_step(*old(self), *final(self)),
    {
        let key = str_trim(self.new_token_key.as_str()).to_owned();
        match check_key_expr(key.as_str()) {
            Ok(()) => {
                self.token_err = None;
                self.token_id_count = self.token_id_count + 1;
                let id = self.token_id_count;
                let ghost before_tokens = self.tokens@;
                let ghost before_events = self.events@;
                self.tokens.push(TokenEntry { id, key_expr: key.clone(), declared: false, err_str: None });
                self.events.push_back(Event::DeclareToken(Box::new(LivelinessTokenData { id, key_expr: key })));
                assert(self.tokens@.drop_last() =~= before_tokens);
                assert(self.events@.drop_last() =~= before_events);
            },
            Err(e) => {
                self.token_err = Some(e);
            },
        }
    }

    /// Removes a token from the list and asks for its undeclaration (see
    /// `remove_token_step`).
    pub fn remove_token(&mut self, id: u64)
        ensures
            remove_token_step(*old(self), *final(self), id),
    {
        proof {
            lemma_token_pos(self.tokens@, id);
        }
        let mut i: usize = 0;
        while i < self.tokens.len() && self.tokens[i].id != id
            invariant
                0 <= i <= self.tokens@.len(),
                self.tokens == old(self).tokens,
                forall|k: int| 0 <= k < i ==> #[trigger] self.tokens@[k].id != id,
            decreases self.tokens@.len() - i,
        {
            i = i + 1;
        }
        if i < self.tokens.len() {
            assert(token_pos(self.tokens@, id) == Some(i as int));
            self.tokens.remove(i);
        } else {
            assert(token_pos(self.tokens@, id) is None);
        }
        self.events.push_back(Event::UndeclareToken(id));
    }

    /// Subscribes or unsubscribes (see `toggle_subscription_step`).
    pub fn toggle_subscription(&mut self)
        requires
            !old(self).subscribed ==> old(self).sub_id < u64::MAX,
        ensures
            toggle_subscription_step(*old(self), *final(self)),
    {
        if !self.subscribed {
            let key = str_trim(self.sub_key.as_str()).to_owned();
            match check_key_expr(key.as_str()) {
                Ok(()) => {
                    self.sub_id = self.sub_id + 1;
                    self.sub_err = None;
                    let ghost before_events = self.events@;
                    self.events.push_back(Event::AddSub(Box::new(LivelinessSubData { id: self.sub_id, key_expr: key })));
                    assert(self.events@.drop_last() =~= before_events);
                    self.subscribed = true;
                },
                Err(e) => {
                    self.sub_err = Some(e);
                },
            }
        } else {
            self.events.push_back(Event::DelSub(self.sub_id));
            self.subscribed = false;
        }
    }

    /// Empties the event log.
    pub fn clear_events(&mut self)
        ensures
            final(self).liveliness_events@.len() == 0,
            same_tokens(*old(self), *final(self)),
            final(self).events == old(self).events,
            final(self).sub_id == old(self).sub_id,
            final(self).sub_key == old(self).sub_key,
            final(self).subscribed == old(self).subscribed,
            final(self).sub_err == old(self).sub_err,
            final(self).max_events == old(self).max_events,
    {
        self.liveliness_events.clear();
    }

    /// Takes the session task's answer to a token declaration (see
    /// `declare_token_res_step`).
    pub fn processing_declare_token_res(&mut self, id: u64, r: Result<(), String>)
        ensures
            declare_token_res_step(*old(self), *final(self), id, r),
    {
        proof {
            lemma_token_pos(self.tokens@, id);
        }
        let mut i: usize = 0;
        while i < self.tokens.len() && self.tokens[i].id != id
            invariant
                0 <= i <= self.tokens@.len(),
                self.tokens == old(self).tokens,
                forall|k: int| 0 <= k < i ==> #[trigger] self.tokens@[k].id != id,
            decreases self.tokens@.len() - i,
        {
            i = i + 1;
        }
        if i < self.tokens.len() {
            assert(token_pos(self.tokens@, id) == Some(i as int));
            let mut token = self.tokens.remove(i);
            match r {
                Ok(_) => {
                    token.declared = true;
                    token.err_str = None;
                },
                Err(e) => {
                    token.declared = false;
                    token.err_str = Some(e);
                },
            }
            self.tokens.insert(i, token);
            assert forall|k: int| 0 <= k < old(self).tokens@.len() && k != i implies #[trigger] self.tokens@[k]
                == old(self).tokens@[k] by {}
        } else {
            assert(token_pos(self.tokens@, id) is None);
        }
    }

    /// Takes the answer to a subscription: for the current subscription, an
    /// error is shown and the page is no longer subscribed; success clears it.
    pub fn processing_add_sub_res(&mut self, id: u64, r: Result<(), String>)
        ensures
            same_tokens(*old(self), *final(self)),
            final(self).events == old(self).events,
            final(self).sub_id == old(self).sub_id,
            final(self).sub_key == old(self).sub_key,
            final(self).liveliness_events == old(self).liveliness_events,
            final(self).max_events == old(self).max_events,
            id == old(self).sub_id ==> match r {
                Ok(()) => final(self).sub_err is None && final(self).subscribed,
                Err(e) => final(self).sub_err == Some(e) && !final(self).subscribed,
            },
            id != old(self).sub_id ==> final(self).sub_err == old(self).sub_err
                && final(self).subscribed == old(self).subscribed,
    {
        if id == self.sub_id {
            match r {
                Ok(_) => {
                    self.sub_err = None;
                    self.subscribed = true;
                },
                Err(e) => {
                    self.sub_err = Some(e);
                    self.subscribed = false;
                },
            }
        }
    }

    /// Takes the end of a subscription: the current one is no longer active.
    pub fn processing_del_sub_res(&mut self, id: u64)
        ensures
            same_tokens(*old(self), *final(self)),
            final(self).events == old(self).events,
            final(self).sub_id == old(self).sub_id,
            final(self).sub_key == old(self).sub_key,
            final(self).sub_err == old(self).sub_err,
            final(self).liveliness_events == old(self).liveliness_events,
            final(self).max_events == old(self).max_events,
            final(self).subscribed == (old(self).subscribed && id != old(self).sub_id),
    {
        if id == self.sub_id {
            self.subscribed = false;
        }
    }

    /// Takes one liveliness sample, received at `now` (see `sub_cb_step`).
    pub fn processing_sub_cb(&mut self, id: u64, key: String, kind: SampleKind, now: Timestamp)
        ensures
            sub_cb_step(*old(self), *final(self), id, key@, kind, now),
    {
        if id != self.sub_id {
            return;
        }
        if self.liveliness_events.len() >= self.max_events {
            let _ = self.liveliness_events.pop_front();
        }
        let ghost kept = self.liveliness_events@;
        self.liveliness_events.push_back(LivelinessEvent { key, kind, time: now });
        assert(self.liveliness_events@.drop_last() =~= kept);
    }
}

/// The text of a time of day (UTC): `HH:MM:SS.mmm`.
pub open spec fn time_of_day_text(t: Timestamp) -> Seq<char> {
    padded_decimal(((t.secs / 3600) % 24) as nat, 2) + seq![':'] + padded_decimal(
        ((t.secs / 60) % 60) as nat,
        2,
    ) + seq![':'] + padded_decimal((t.secs % 60) as nat, 2) + seq!['.'] + padded_decimal(
        t.millis as nat,
        3,
    )
}

/// Formats the time of day of `t` as `HH:MM:SS.mmm`.
pub fn format_system_time(t: Timestamp) -> (r: String)
    ensures
        r@ == time_of_day_text(t),
{
    let secs = t.secs;
    let h = (secs / 3600) % 24;
    let m = (secs / 60) % 60;
    let s = secs % 60;
    let mut out = String::new();
    push_padded_decimal(&mut out, h, 2);
    push_char(&mut out, ':');
    push_padded_decimal(&mut out, m, 2);
    push_char(&mut out, ':');
    push_padded_decimal(&mut out, s, 2);
    push_char(&mut out, '.');
    push_padded_decimal(&mut out, t.millis as u64, 3);
    assert(out@ =~= time_of_day_text(t));
    out
}

/// Declaring and removing tokens keeps their ids distinct and below the
/// counter.
pub proof fn law_token_ids_distinct(a: PageLiveliness, b: PageLiveliness, id: u64)
    requires
        tokens_wf(a),
        a.token_id_count < u64::MAX,
        declare_token_step(a, b) || remove_token_step(a, b, id) || (exists|r: Result<(), String>|
            declare_token_res_step(a, b, id, r)),
    ensures
        tokens_wf(b),
{
    lemma_token_pos(a.tokens@, id);
    if declare_token_step(a, b) {
        if key_expr_error(trim_white(a.new_token_key@)) is None {
            assert forall|i: int| 0 <= i < b.tokens@.len() implies #[trigger] b.tokens@[i].id
                <= b.token_id_count by {
                if i < a.tokens@.len() {
                    assert(b.tokens@[i] == b.tokens@.drop_last()[i]);
                }
            }
            assert forall|i: int, j: int| 0 <= i < j < b.tokens@.len() implies #[trigger] b.tokens@[i].id
                < #[trigger] b.tokens@[j].id by {
                assert(b.tokens@[i] == b.tokens@.drop_last()[i]);
                if j < a.tokens@.len() {
                    assert(b.tokens@[j] == b.tokens@.drop_last()[j]);
                }
            }
        }
    } else if remove_token_step(a, b, id) {
        if let Some(p) = token_pos(a.tokens@, id) {
            assert forall|i: int, j: int| 0 <= i < j < b.tokens@.len() implies #[trigger] b.tokens@[i].id
                < #[trigger] b.tokens@[j].id by {
                let ii = if i < p { i } else { i + 1 };
                let jj = if j < p { j } else { j + 1 };
                assert(b.tokens@[i] == a.tokens@[ii]);
                assert(b.tokens@[j] == a.tokens@[jj]);
            }
            assert forall|i: int| 0 <= i < b.tokens@.len() implies #[trigger] b.tokens@[i].id
                <= b.token_id_count by {
                let ii = if i < p { i } else { i + 1 };
                assert(b.tokens@[i] == a.tokens@[ii]);
            }
        }
    } else {
        let r = choose|r: Result<(), String>| declare_token_res_step(a, b, id, r);
        if let Some(p) = token_pos(a.tokens@, id) {
            assert forall|i: int| 0 <= i < b.tokens@.len() implies #[trigger] b.tokens@[i].id
                == a.tokens@[i].id by {
                if i != p {
                    assert(b.tokens@[i] == a.tokens@[i]);
                }
            }
        }
    }
}

/// The log never grows beyond a positive `max_events`.
pub proof fn law_event_log_bounded(
    a: PageLiveliness,
    b: PageLiveliness,
    id: u64,
    key: Seq<char>,
    kind: SampleKind,
    now: Timestamp,
)
    requires
        a.max_events > 0,
        a.liveliness_events@.len() <= a.max_events,
        sub_cb_step(a, b, id, key, kind, now),
    ensures
        b.liveliness_events@.len() <= b.max_events,
{
}

/// Only the time of day is shown: a moment one day later reads the same.
pub proof fn law_time_of_day_daily(t: Timestamp)
    requires
        t.secs + 86400 <= u64::MAX,
    ensures
        time_of_day_text(Timestamp { secs: (t.secs + 86400) as u64, ..t }) == time_of_day_text(t),
{
    let s = t.secs as int;
    assert((s + 86400) / 3600 == s / 3600 + 24);
    assert((s / 3600 + 24) % 24 == (s / 3600) % 24);
    assert((s + 86400) / 60 == s / 60 + 1440);
    assert((s / 60 + 1440) % 60 == (s / 60) % 60);
    assert((s + 86400) % 60 == s % 60);
}

/// The page lists a token with this id.
pub open spec fn has_token(p: PageLiveliness, id: u64) -> bool {
    exists|i: int| 0 <= i < p.tokens@.len() && #[trigger] p.tokens@[i].id == id
}

/// An id that was given out and is no longer listed never comes back: no
/// step of the page lists it again (new tokens get ids above the counter).
pub proof fn law_removed_token_id_never_returns(a: PageLiveliness, b: PageLiveliness, id: u64)
    requires
        tokens_wf(a),
        a.token_id_count < u64::MAX,
        1 <= id <= a.token_id_count,
        !has_token(a, id),
        declare_token_step(a, b) || (exists|k: u64| remove_token_step(a, b, k)) || (exists|
            k: u64,
            r: Result<(), String>,
        | declare_token_res_step(a, b, k, r)) || same_tokens(a, b),
    ensures
        !has_token(b, id),
        id <= b.token_id_count,
{
    if declare_token_step(a, b) {
        if key_expr_error(trim_white(a.new_token_key@)) is None {
            if has_token(b, id) {
                let i = choose|i: int| 0 <= i < b.tokens@.len() && #[trigger] b.tokens@[i].id == id;
                if i < a.tokens@.len() {
                    assert(b.tokens@[i] == b.tokens@.drop_last()[i]);
                }
            }
        }
    } else if exists|k: u64| remove_token_step(a, b, k) {
        let k = choose|k: u64| remove_token_step(a, b, k);
        lemma_token_pos(a.tokens@, k);
        if has_token(b, id) {
            let i = choose|i: int| 0 <= i < b.tokens@.len() && #[trigger] b.tokens@[i].id == id;
            if let Some(p) = token_pos(a.tokens@, k) {
                let ii = if i < p { i } else { i + 1 };
                assert(b.tokens@[i] == a.tokens@[ii]);
            }
        }
    } else if exists|k: u64, r: Result<(), String>| declare_token_res_step(a, b, k, r) {
        let (k, r) = choose|k: u64, r: Result<(), String>| declare_token_res_step(a, b, k, r);
        lemma_token_pos(a.tokens@, k);
        if has_token(b, id) {
            let i = choose|i: int| 0 <= i < b.tokens@.len() && #[trigger] b.tokens@[i].id == id;
            assert(b.tokens@[i].id == a.tokens@[i].id);
        }
    }
}

proof fn lemma_two_digits(n: nat)
    requires
        n < 100,
    ensures
        padded_decimal(n, 2) =~= seq![digit_char(n / 10), digit_char(n % 10)],
{
    reveal_with_fuel(dec_digits, 2);
    if n < 10 {
        assert(zeros(1) =~= seq!['0']);
    } else {
        assert(dec_digits(n / 10) =~= seq![digit_char(n / 10)]);
    }
}

proof fn lemma_three_digits(n: nat)
    requires
        n < 1000,
    ensures
        padded_decimal(n, 3) =~= seq![digit_char(n / 100), digit_char((n / 10) % 10), digit_char(n % 10)],
{
    reveal_with_fuel(dec_digits, 3);
    if n < 10 {
        assert(zeros(2) =~= seq!['0', '0']);
    } else if n < 100 {
        assert(zeros(1) =~= seq!['0']);
        assert(dec_digits(n / 10) =~= seq![digit_char(n / 10)]);
    } else {
        assert(dec_digits(n / 100) =~= seq![digit_char(n / 100)]);
        assert((n / 10) / 10 == n / 100);
        assert(dec_digits(n / 10) =~= seq![digit_char(n / 100), digit_char((n / 10) % 10)]);
    }
}

/// The time of day always reads `HH:MM:SS.mmm`: twelve characters, hours,
/// minutes and seconds of the UTC day as two digits each and the
/// milliseconds as exactly three, with leading zeros.
pub proof fn law_time_of_day_layout(t: Timestamp)
    requires
        t.millis < 1000,
    ensures
        ({
            let h = ((t.secs / 3600) % 24) as nat;
            let m = ((t.secs / 60) % 60) as nat;
            let s = (t.secs % 60) as nat;
            let ms = t.millis as nat;
            time_of_day_text(t) == seq![
                digit_char(h / 10),
                digit_char(h % 10),
                ':',
                digit_char(m / 10),
                digit_char(m % 10),
                ':',
                digit_char(s / 10),
                digit_char(s % 10),
                '.',
                digit_char(ms / 100),
                digit_char((ms / 10) % 10),
                digit_char(ms % 10),
            ]
        }),
        time_of_day_text(t).len() == 12,
{
    lemma_two_digits(((t.secs / 3600) % 24) as nat);
    lemma_two_digits(((t.secs / 60) % 60) as nat);
    lemma_two_digits((t.secs % 60) as nat);
    lemma_three_digits(t.millis as nat);
    let h = ((t.secs / 3600) % 24) as nat;
    let m = ((t.secs / 60) % 60) as nat;
    let s = (t.secs % 60) as nat;
    let ms = t.millis as nat;
    assert(time_of_day_text(t) =~= seq![
        digit_char(h / 10),
        digit_char(h % 10),
        ':',
        digit_char(m / 10),
        digit_char(m % 10),
        ':',
        digit_char(s / 10),
        digit_char(s % 10),
        '.',
        digit_char(ms / 100),
        digit_char((ms / 10) % 10),
        digit_char(ms % 10),
    ]);
}

} // verus!

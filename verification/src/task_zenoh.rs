//! The session task: the messages that the pages exchange with it, and the
//! bookkeeping by which it answers them.

use vstd::prelude::*;

verus! {

/// What the session reports about itself.
pub struct SessionInfoData {
    pub zid: String,
    pub peers: Vec<String>,
    pub routers: Vec<String>,
}

/// A query of the admin space.
pub struct AdminQueryData {
    pub id: u64,
    pub key_expr: String,
    pub timeout_ms: u64,
}

/// A liveliness token to declare; `key_expr` has been checked to be a key
/// expression.
pub struct LivelinessTokenData {
    pub id: u64,
    pub key_expr: String,
}

/// A liveliness subscriber to declare; `key_expr` has been checked to be a key
/// expression.
pub struct LivelinessSubData {
    pub id: u64,
    pub key_expr: String,
}

// ---- registries of what the session task holds open ----

/// The ids increase strictly along the list (so each id occurs once).
pub open spec fn ids_increasing<V>(s: Seq<(u64, V)>) -> bool {
    forall|i: int, j: int| 0 <= i < j < s.len() ==> #[trigger] s[i].0 < #[trigger] s[j].0
}

/// Index of the entry with the given id.
pub open spec fn index_of<V>(s: Seq<(u64, V)>, id: u64) -> Option<int> {
    if exists|i: int| 0 <= i < s.len() && s[i].0 == id {
        Some(choose|i: int| 0 <= i < s.len() && s[i].0 == id)
    } else {
        None
    }
}

/// Number of entries with a smaller id: where a new id goes.
pub open spec fn rank<V>(s: Seq<(u64, V)>, id: u64) -> int
    decreases s.len(),
{
    if s.len() == 0 {
        0
    } else if s[0].0 < id {
        1 + rank(s.drop_first(), id)
    } else {
        0
    }
}

/// The value held under `id`, if any.
pub open spec fn lookup<V>(s: Seq<(u64, V)>, id: u64) -> Option<V> {
    match index_of(s, id) {
        Some(k) => Some(s[k].1),
        None => None,
    }
}

/// The entries after holding `v` under `id`: in place of the old entry with
/// that id, else at its rank.
pub open spec fn inserted<V>(s: Seq<(u64, V)>, id: u64, v: V) -> Seq<(u64, V)> {
    match index_of(s, id) {
        Some(k) => s.update(k, (id, v)),
        None => s.insert(rank(s, id), (id, v)),
    }
}

/// The entries after taking out `id`.
pub open spec fn removed<V>(s: Seq<(u64, V)>, id: u64) -> Seq<(u64, V)> {
    match index_of(s, id) {
        Some(k) => s.remove(k),
        None => s,
    }
}

/// Values held under ids, in increasing id order. It is a `Vec` of pairs
/// rather than a `BTreeMap` because `drain` moves every value out, in id
/// order, and vstd specifies the walk over a `BTreeMap` only through
/// iterators that borrow it.
pub struct Registry<V> {
    entries: Vec<(u64, V)>,
}

impl<V> Registry<V> {
    #[verifier::type_invariant]
    spec fn registry_inv(self) -> bool {
        ids_increasing(self.entries@)
    }

    /// The entries, in increasing id order.
    pub closed spec fn entries(self) -> Seq<(u64, V)> {
        self.entries@
    }

    /// An empty registry.
    pub fn new() -> (r: Self)
        ensures
            r.entries().len() == 0,
    {
        Registry { entries: Vec::new() }
    }

    /// Whether an id is held.
    pub fn contains(&self, id: u64) -> (r: bool)
        ensures
            r == (index_of(self.entries(), id) is Some),
            ids_increasing(self.entries()),
    {
        proof {
            use_type_invariant(self);
        }
        let mut i: usize = 0;
        while i < self.entries.len()
            invariant
                0 <= i <= self.entries@.len(),
                ids_increasing(self.entries@),
                forall|k: int| 0 <= k < i ==> #[trigger] self.entries@[k].0 != id,
            decreases self.entries@.len() - i,
        {
            if self.entries[i].0 == id {
                assert(self.entries@[i as int].0 == id);
                return true;
            }
            i = i + 1;
        }
        false
    }

    fn find(&self, id: u64) -> (r: (usize, bool))
        ensures
            r.0 <= self.entries@.len(),
            r.1 ==> r.0 < self.entries@.len() && self.entries@[r.0 as int].0 == id,
            !r.1 ==> index_of(self.entries@, id) is None,
            !r.1 ==> r.0 == rank(self.entries@, id),
            !r.1 ==> forall|k: int| 0 <= k < r.0 ==> #[trigger] self.entries@[k].0 < id,
            !r.1 ==> forall|k: int| r.0 <= k < self.entries@.len() ==> #[trigger] self.entries@[k].0 > id,
            ids_increasing(self.entries@),
            r.1 ==> index_of(self.entries@, id) == Some(r.0 as int),
    {
        proof {
            use_type_invariant(self);
        }
        let mut i: usize = 0;
        assert(self.entries@.skip(0) =~= self.entries@);
        while i < self.entries.len() && self.entries[i].0 < id
            invariant
                0 <= i <= self.entries@.len(),
                ids_increasing(self.entries@),
                forall|k: int| 0 <= k < i ==> #[trigger] self.entries@[k].0 < id,
                rank(self.entries@, id) == i + rank(self.entries@.skip(i as int), id),
            decreases self.entries@.len() - i,
        {
            assert(self.entries@.skip(i as int).drop_first() =~= self.entries@.skip(i + 1));
            i = i + 1;
        }
        let found = i < self.entries.len() && self.entries[i].0 == id;
        proof {
            let s = self.entries@;
            if found {
                assert forall|k: int| 0 <= k < s.len() && s[k].0 == id implies k == i by {
                    if k < i {
                    } else if k > i {
                        assert(s[i as int].0 < s[k].0);
                    }
                }
            } else {
                assert forall|k: int| 0 <= k < s.len() implies #[trigger] s[k].0 != id by {
                    if k > i {
                        assert(s[i as int].0 < s[k].0);
                    }
                }
                assert forall|k: int| i <= k < s.len() implies #[trigger] s[k].0 > id by {
                    if k > i {
                        assert(s[i as int].0 < s[k].0);
                    }
                }
                if i < s.len() {
                    assert(s.skip(i as int)[0] == s[i as int]);
                } else {
                    assert(s.skip(i as int).len() == 0);
                }
            }
        }
        (i, found)
    }

    /// Holds `v` under `id`, in place of what was held there (which comes
    /// back).
    pub fn insert(&mut self, id: u64, v: V) -> (r: Option<V>)
        ensures
            ids_increasing(final(self).entries()),
            final(self).entries() == inserted(old(self).entries(), id, v),
            r == lookup(old(self).entries(), id),
            lookup(final(self).entries(), id) == Some(v),
            forall|other: u64|
                other != id ==> #[trigger] lookup(final(self).entries(), other) == lookup(
                    old(self).entries(),
                    other,
                ),
    {
        proof {
            use_type_invariant(&*self);
            lemma_inserted(self.entries@, id, v);
        }
        let (i, found) = self.find(id);
        let mut entries: Vec<(u64, V)> = Vec::new();
        std::mem::swap(&mut entries, &mut self.entries);
        if found {
            let (_, previous) = entries.remove(i);
            entries.insert(i, (id, v));
            assert(entries@ =~= old(self).entries@.update(i as int, (id, v)));
            assert(ids_increasing(entries@)) by {
                assert forall|a: int, b: int| 0 <= a < b < entries@.len() implies #[trigger] entries@[a].0
                    < #[trigger] entries@[b].0 by {
                    assert(old(self).entries@[a].0 < old(self).entries@[b].0);
                }
            }
            self.entries = entries;
            Some(previous)
        } else {
            proof {
                let s = entries@;
                let t = s.insert(i as int, (id, v));
                assert forall|a: int, b: int| 0 <= a < b < t.len() implies #[trigger] t[a].0 < #[trigger] t[b].0 by {
                    if b < i {
                        assert(s[a].0 < s[b].0);
                    } else if b == i {
                        assert(t[a] == s[a]);
                    } else if a < i {
                        assert(t[a] == s[a]);
                        assert(t[b] == s[b - 1]);
                    } else if a == i {
                        assert(t[b] == s[b - 1]);
                    } else {
                        assert(t[a] == s[a - 1]);
                        assert(t[b] == s[b - 1]);
                        assert(s[a - 1].0 < s[b - 1].0);
                    }
                }
            }
            entries.insert(i, (id, v));
            self.entries = entries;
            None
        }
    }

    /// Takes out what is held under `id`, if anything.
    pub fn remove(&mut self, id: u64) -> (r: Option<V>)
        ensures
            ids_increasing(final(self).entries()),
            final(self).entries() == removed(old(self).entries(), id),
            r == lookup(old(self).entries(), id),
            lookup(final(self).entries(), id) is None,
            forall|other: u64|
                other != id ==> #[trigger] lookup(final(self).entries(), other) == lookup(
                    old(self).entries(),
                    other,
                ),
    {
        proof {
            use_type_invariant(&*self);
            lemma_removed(self.entries@, id);
        }
        let (i, found) = self.find(id);
        if found {
            let mut entries: Vec<(u64, V)> = Vec::new();
            std::mem::swap(&mut entries, &mut self.entries);
            proof {
                let s = entries@;
                let t = s.remove(i as int);
                assert forall|a: int, b: int| 0 <= a < b < t.len() implies #[trigger] t[a].0 < #[trigger] t[b].0 by {
                    let aa = if a < i { a } else { a + 1 };
                    let bb = if b < i { b } else { b + 1 };
                    assert(t[a] == s[aa]);
                    assert(t[b] == s[bb]);
                }
            }
            let (_, v) = entries.remove(i);
            self.entries = entries;
            Some(v)
        } else {
            None
        }
    }

    /// All entries, in increasing id order; the registry is used up.
    pub fn drain(self) -> (r: Vec<(u64, V)>)
        ensures
            r@ == self.entries(),
            ids_increasing(r@),
    {
        proof {
            use_type_invariant(&self);
        }
        self.entries
    }
}

// ---- the session task's bookkeeping ----

/// An answer of the session task to the pages.
pub enum Reply {
    AddSubRes(u64, Result<(), String>),
    DelSubRes(u64),
    PutRes(u64, bool, String),
    DeclareLivelinessTokenRes(u64, Result<(), String>),
    AddLivelinessSubRes(u64, Result<(), String>),
    DelLivelinessSubRes(u64),
}

/// What the session task holds open: a closing handle per subscriber and per
/// liveliness subscriber (`S`), and the declared liveliness tokens (`T`).
pub struct SessionBook<S, T> {
    pub subscribers: Registry<S>,
    pub tokens: Registry<T>,
    pub liveliness_subscribers: Registry<S>,
}

/// Whether the session task goes on after a subscriber declaration.
#[derive(PartialEq, Eq, Structural)]
pub enum Flow {
    Continue,
    /// The task ends at once, without closing what it holds.
    Abort,
}

impl<S, T> SessionBook<S, T> {
    /// Nothing held yet.
    pub fn new() -> (r: Self)
        ensures
            r.subscribers.entries().len() == 0,
            r.tokens.entries().len() == 0,
            r.liveliness_subscribers.entries().len() == 0,
    {
        SessionBook {
            subscribers: Registry::new(),
            tokens: Registry::new(),
            liveliness_subscribers: Registry::new(),
        }
    }

    /// A subscriber was declared (or not): on success its handle is held
    /// under `id` (the one it replaces comes back) and success is answered;
    /// on failure the error is answered and the task ends.
    pub fn subscriber_declared(&mut self, id: u64, declared: Result<S, String>) -> (r: (
        Option<S>,
        Reply,
        Flow,
    ))
        ensures
            match declared {
                Ok(s) => {
                    &&& r.2 == Flow::Continue
                    &&& r.1 == Reply::AddSubRes(id, Ok(()))
                    &&& final(self).subscribers.entries() == inserted(old(self).subscribers.entries(), id, s) && r.0 == lookup(
                        old(self).subscribers.entries(),
                        id,
                    )
                },
                Err(e) => {
                    &&& r.2 == Flow::Abort
                    &&& r.1 == Reply::AddSubRes(id, Err(e))
                    &&& r.0 is None
                    &&& final(self).subscribers == old(self).subscribers
                },
            },
            final(self).tokens == old(self).tokens,
            final(self).liveliness_subscribers == old(self).liveliness_subscribers,
    {
        match declared {
            Ok(s) => {
                let replaced = self.subscribers.insert(id, s);
                (replaced, Reply::AddSubRes(id, Ok(())), Flow::Continue)
            },
            Err(e) => (None, Reply::AddSubRes(id, Err(e)), Flow::Abort),
        }
    }

    /// A subscriber is deleted: its handle (to be closed) comes back, if it
    /// was held, and the deletion is always answered.
    pub fn delete_subscriber(&mut self, id: u64) -> (r: (Option<S>, Reply))
        ensures
            r.1 == Reply::DelSubRes(id),
            final(self).subscribers.entries() == removed(old(self).subscribers.entries(), id) && r.0 == lookup(
                old(self).subscribers.entries(),
                id,
            ),
            final(self).tokens == old(self).tokens,
            final(self).liveliness_subscribers == old(self).liveliness_subscribers,
    {
        let closed = self.subscribers.remove(id);
        (closed, Reply::DelSubRes(id))
    }

    /// A liveliness token was declared (or not): on success it is held under
    /// `id` (the one it replaces comes back, to be dropped); the outcome is
    /// answered either way.
    pub fn token_declared(&mut self, id: u64, declared: Result<T, String>) -> (r: (
        Option<T>,
        Reply,
    ))
        ensures
            match declared {
                Ok(t) => {
                    &&& r.1 == Reply::DeclareLivelinessTokenRes(id, Ok(()))
                    &&& final(self).tokens.entries() == inserted(old(self).tokens.entries(), id, t) && r.0 == lookup(
                        old(self).tokens.entries(),
                        id,
                    )
                },
                Err(e) => {
                    &&& r.1 == Reply::DeclareLivelinessTokenRes(id, Err(e))
                    &&& r.0 is None
                    &&& final(self).tokens == old(self).tokens
                },
            },
            final(self).subscribers == old(self).subscribers,
            final(self).liveliness_subscribers == old(self).liveliness_subscribers,
    {
        match declared {
            Ok(t) => {
                let replaced = self.tokens.insert(id, t);
                (replaced, Reply::DeclareLivelinessTokenRes(id, Ok(())))
            },
            Err(e) => (None, Reply::DeclareLivelinessTokenRes(id, Err(e))),
        }
    }

    /// A liveliness token is undeclared: it comes back (to be dropped), if
    /// held. Nothing is answered.
    pub fn undeclare_token(&mut self, id: u64) -> (r: Option<T>)
        ensures
            final(self).tokens.entries() == removed(old(self).tokens.entries(), id) && r == lookup(
                old(self).tokens.entries(),
                id,
            ),
            final(self).subscribers == old(self).subscribers,
            final(self).liveliness_subscribers == old(self).liveliness_subscribers,
    {
        self.tokens.remove(id)
    }

    /// A liveliness subscriber was declared (or not): on success its handle
    /// is held under `id` (the one it replaces comes back); the outcome is
    /// answered either way.
    pub fn liveliness_subscriber_declared(&mut self, id: u64, declared: Result<S, String>) -> (r: (
        Option<S>,
        Reply,
    ))
        ensures
            match declared {
                Ok(s) => {
                    &&& r.1 == Reply::AddLivelinessSubRes(id, Ok(()))
                    &&& final(self).liveliness_subscribers.entries() == inserted(old(self).liveliness_subscribers.entries(), id, s) && r.0 == lookup(
                        old(self).liveliness_subscribers.entries(),
                        id,
                    )
                },
                Err(e) => {
                    &&& r.1 == Reply::AddLivelinessSubRes(id, Err(e))
                    &&& r.0 is None
                    &&& final(self).liveliness_subscribers == old(self).liveliness_subscribers
                },
            },
            final(self).subscribers == old(self).subscribers,
            final(self).tokens == old(self).tokens,
    {
        match declared {
            Ok(s) => {
                let replaced = self.liveliness_subscribers.insert(id, s);
                (replaced, Reply::AddLivelinessSubRes(id, Ok(())))
            },
            Err(e) => (None, Reply::AddLivelinessSubRes(id, Err(e))),
        }
    }

    /// A liveliness subscriber is deleted: its handle (to be closed) comes
    /// back, if held, and the deletion is always answered.
    pub fn delete_liveliness_subscriber(&mut self, id: u64) -> (r: (Option<S>, Reply))
        ensures
            r.1 == Reply::DelLivelinessSubRes(id),
            final(self).liveliness_subscribers.entries() == removed(old(self).liveliness_subscribers.entries(), id) && r.0 == lookup(
                old(self).liveliness_subscribers.entries(),
                id,
            ),
            final(self).subscribers == old(self).subscribers,
            final(self).tokens == old(self).tokens,
    {
        let closed = self.liveliness_subscribers.remove(id);
        (closed, Reply::DelLivelinessSubRes(id))
    }

    /// The session ends: every subscriber handle comes back (to be closed)
    /// with the answer that it is deleted, in increasing id order; then every
    /// token (to be dropped); then every liveliness subscriber handle with its
    /// answer, in increasing id order.
    pub fn shutdown(self) -> (r: (Vec<(S, Reply)>, Vec<T>, Vec<(S, Reply)>))
        ensures
            r.0@.len() == self.subscribers.entries().len(),
            forall|i: int| 0 <= i < r.0@.len() ==> #[trigger] r.0@[i] == (
                self.subscribers.entries()[i].1,
                Reply::DelSubRes(self.subscribers.entries()[i].0),
            ),
            r.1@ == self.tokens.entries().map_values(|e: (u64, T)| e.1),
            r.2@.len() == self.liveliness_subscribers.entries().len(),
            forall|i: int| 0 <= i < r.2@.len() ==> #[trigger] r.2@[i] == (
                self.liveliness_subscribers.entries()[i].1,
                Reply::DelLivelinessSubRes(self.liveliness_subscribers.entries()[i].0),
            ),
    {
        let SessionBook { subscribers, tokens, liveliness_subscribers } = self;
        let subs = closing_replies(subscribers.drain(), false);
        let mut held = tokens.drain();
        let ghost held_view = held@;
        let mut toks: Vec<T> = Vec::new();
        while held.len() > 0
            invariant
                held@ == held_view.skip(toks@.len() as int),
                toks@ == held_view.take(toks@.len() as int).map_values(|e: (u64, T)| e.1),
                toks@.len() <= held_view.len(),
            decreases held@.len(),
        {
            let (_, t) = held.remove(0);
            toks.push(t);
            proof {
                assert(held@ =~= held_view.skip(toks@.len() as int));
                assert(toks@ =~= held_view.take(toks@.len() as int).map_values(|e: (u64, T)| e.1));
            }
        }
        proof {
            assert(held_view.take(toks@.len() as int) =~= held_view);
        }
        let lsubs = closing_replies(liveliness_subscribers.drain(), true);
        (subs, toks, lsubs)
    }
}

/// Each handle with the answer that its subscriber (or liveliness
/// subscriber) is deleted, in order.
fn closing_replies<S>(entries: Vec<(u64, S)>, liveliness: bool) -> (r: Vec<(S, Reply)>)
    ensures
        r@.len() == entries@.len(),
        forall|i: int| 0 <= i < r@.len() ==> #[trigger] r@[i] == (
            entries@[i].1,
            if liveliness {
                Reply::DelLivelinessSubRes(entries@[i].0)
            } else {
                Reply::DelSubRes(entries@[i].0)
            },
        ),
{
    let ghost orig = entries@;
    let mut entries = entries;
    let mut out: Vec<(S, Reply)> = Vec::new();
    while entries.len() > 0
        invariant
            entries@ == orig.skip(out@.len() as int),
            out@.len() <= orig.len(),
            forall|i: int| 0 <= i < out@.len() ==> #[trigger] out@[i] == (
                orig[i].1,
                if liveliness {
                    Reply::DelLivelinessSubRes(orig[i].0)
                } else {
                    Reply::DelSubRes(orig[i].0)
                },
            ),
        decreases entries@.len(),
    {
        let ghost k = out@.len() as int;
        let (id, s) = entries.remove(0);
        assert(orig.skip(k)[0] == orig[k]);
        let reply = if liveliness {
            Reply::DelLivelinessSubRes(id)
        } else {
            Reply::DelSubRes(id)
        };
        out.push((s, reply));
        assert(entries@ =~= orig.skip(out@.len() as int));
    }
    out
}

proof fn lemma_index_unique<V>(s: Seq<(u64, V)>, id: u64, i: int)
    requires
        ids_increasing(s),
        0 <= i < s.len(),
        s[i].0 == id,
    ensures
        index_of(s, id) == Some(i),
{
    let k = choose|k: int| 0 <= k < s.len() && s[k].0 == id;
    if k < i {
        assert(s[k].0 < s[i].0);
    } else if k > i {
        assert(s[i].0 < s[k].0);
    }
}

proof fn lemma_rank<V>(s: Seq<(u64, V)>, id: u64)
    requires
        ids_increasing(s),
        index_of(s, id) is None,
    ensures
        0 <= rank(s, id) <= s.len(),
        forall|k: int| 0 <= k < rank(s, id) ==> #[trigger] s[k].0 < id,
        forall|k: int| rank(s, id) <= k < s.len() ==> #[trigger] s[k].0 > id,
    decreases s.len(),
{
    if s.len() > 0 {
        let t = s.drop_first();
        assert forall|a: int, b: int| 0 <= a < b < t.len() implies #[trigger] t[a].0 < #[trigger] t[b].0 by {
            assert(s[a + 1].0 < s[b + 1].0);
        }
        assert(index_of(t, id) is None) by {
            if exists|i: int| 0 <= i < t.len() && t[i].0 == id {
                let i = choose|i: int| 0 <= i < t.len() && t[i].0 == id;
                assert(s[i + 1].0 == id);
            }
        }
        lemma_rank(t, id);
        assert(s[0].0 != id);
        if s[0].0 < id {
            assert forall|k: int| 0 <= k < rank(s, id) implies #[trigger] s[k].0 < id by {
                if k > 0 {
                    assert(s[k] == t[k - 1]);
                }
            }
            assert forall|k: int| rank(s, id) <= k < s.len() implies #[trigger] s[k].0 > id by {
                assert(s[k] == t[k - 1]);
            }
        } else {
            assert forall|k: int| 0 <= k < s.len() implies #[trigger] s[k].0 > id by {
                if k > 0 {
                    assert(s[0].0 < s[k].0);
                }
            }
        }
    }
}

/// What a registry gives back of a write: after `v` is held under `id`,
/// looking up `id` gives `v`; after `id` is taken out, it gives nothing; every
/// other id gives what it gave before; and the ids stay in increasing order.
pub proof fn law_registry_read_after_write<V>(s: Seq<(u64, V)>, id: u64, v: V, other: u64)
    requires
        ids_increasing(s),
        other != id,
    ensures
        lookup(inserted(s, id, v), id) == Some(v),
        lookup(inserted(s, id, v), other) == lookup(s, other),
        lookup(removed(s, id), id) is None,
        lookup(removed(s, id), other) == lookup(s, other),
        ids_increasing(inserted(s, id, v)),
        ids_increasing(removed(s, id)),
{
    let t = inserted(s, id, v);
    let u = removed(s, id);
    match index_of(s, id) {
        Some(k) => {
            lemma_index_unique(s, id, k);
            assert(ids_increasing(t)) by {
                assert forall|a: int, b: int| 0 <= a < b < t.len() implies #[trigger] t[a].0
                    < #[trigger] t[b].0 by {
                    assert(s[a].0 < s[b].0);
                }
            }
            lemma_index_unique(t, id, k);
            assert(ids_increasing(u)) by {
                assert forall|a: int, b: int| 0 <= a < b < u.len() implies #[trigger] u[a].0
                    < #[trigger] u[b].0 by {
                    let aa = if a < k { a } else { a + 1 };
                    let bb = if b < k { b } else { b + 1 };
                    assert(s[aa].0 < s[bb].0);
                }
            }
            assert(index_of(u, id) is None) by {
                if exists|i: int| 0 <= i < u.len() && u[i].0 == id {
                    let i = choose|i: int| 0 <= i < u.len() && u[i].0 == id;
                    let ii = if i < k { i } else { i + 1 };
                    assert(s[ii].0 == id);
                    lemma_index_unique(s, id, ii);
                }
            }
            match index_of(s, other) {
                Some(j) => {
                    lemma_index_unique(s, other, j);
                    assert(j != k);
                    assert(t[j] == s[j]);
                    lemma_index_unique(t, other, j);
                    let jj = if j < k { j } else { j - 1 };
                    assert(u[jj] == s[j]);
                    lemma_index_unique(u, other, jj);
                },
                None => {
                    assert(index_of(t, other) is None) by {
                        if exists|i: int| 0 <= i < t.len() && t[i].0 == other {
                            let i = choose|i: int| 0 <= i < t.len() && t[i].0 == other;
                            assert(i != k);
                            assert(s[i].0 == other);
                        }
                    }
                    assert(index_of(u, other) is None) by {
                        if exists|i: int| 0 <= i < u.len() && u[i].0 == other {
                            let i = choose|i: int| 0 <= i < u.len() && u[i].0 == other;
                            let ii = if i < k { i } else { i + 1 };
                            assert(s[ii].0 == other);
                        }
                    }
                },
            }
        },
        None => {
            lemma_rank(s, id);
            let r = rank(s, id);
            assert(u == s);
            assert(ids_increasing(t)) by {
                assert forall|a: int, b: int| 0 <= a < b < t.len() implies #[trigger] t[a].0
                    < #[trigger] t[b].0 by {
                    if b < r {
                        assert(s[a].0 < s[b].0);
                    } else if b == r {
                        assert(t[a] == s[a]);
                    } else if a < r {
                        assert(t[a] == s[a]);
                        assert(t[b] == s[b - 1]);
                    } else if a == r {
                        assert(t[b] == s[b - 1]);
                    } else {
                        assert(t[a] == s[a - 1]);
                        assert(t[b] == s[b - 1]);
                        assert(s[a - 1].0 < s[b - 1].0);
                    }
                }
            }
            lemma_index_unique(t, id, r);
            match index_of(s, other) {
                Some(j) => {
                    lemma_index_unique(s, other, j);
                    let jj = if j < r { j } else { j + 1 };
                    assert(t[jj] == s[j]);
                    lemma_index_unique(t, other, jj);
                },
                None => {
                    assert(index_of(t, other) is None) by {
                        if exists|i: int| 0 <= i < t.len() && t[i].0 == other {
                            let i = choose|i: int| 0 <= i < t.len() && t[i].0 == other;
                            assert(i != r);
                            let ii = if i < r { i } else { i - 1 };
                            assert(s[ii].0 == other);
                        }
                    }
                },
            }
        },
    }
}

pub open spec fn text_put_ok() -> Seq<char> {
    seq!['p', 'u', 't', ' ', 'o', 'k', ' ', '"']
}

pub open spec fn text_put_error() -> Seq<char> {
    seq!['p', 'u', 't', ' ', 'e', 'r', 'r', 'o', 'r', ' ', '"']
}

/// The report of a put on `key`: `put ok "key"`, or `put error "key", why`.
pub open spec fn put_report_text(key: Seq<char>, error: Option<Seq<char>>) -> Seq<char> {
    match error {
        None => text_put_ok() + key + seq!['"'],
        Some(e) => text_put_error() + key + seq!['"', ',', ' '] + e,
    }
}

/// The answer to a put request: whether it succeeded, and the report.
pub fn put_report(id: u64, key: &str, result: Result<(), String>) -> (r: Reply)
    ensures
        r matches Reply::PutRes(i, ok, text) && i == id && ok == (result is Ok) && text@
            == put_report_text(
            key@,
            match result {
                Ok(()) => None,
                Err(e) => Some(e@),
            },
        ),
{
    proof {
        reveal_strlit("put ok \"");
        reveal_strlit("put error \"");
        reveal_strlit("\"");
        reveal_strlit("\", ");
        assert("put ok \""@ =~= text_put_ok());
        assert("put error \""@ =~= text_put_error());
        assert("\""@ =~= seq!['"']);
        assert("\", "@ =~= seq!['"', ',', ' ']);
    }
    match result {
        Ok(()) => {
            let mut text = "put ok \"".to_owned();
            text.append(key);
            text.append("\"");
            assert(text@ =~= put_report_text(key@, None));
            Reply::PutRes(id, true, text)
        },
        Err(e) => {
            let mut text = "put error \"".to_owned();
            text.append(key);
            text.append("\", ");
            text.append(e.as_str());
            assert(text@ =~= put_report_text(key@, Some(e@)));
            Reply::PutRes(id, false, text)
        },
    }
}

proof fn lemma_inserted<V>(s: Seq<(u64, V)>, id: u64, v: V)
    requires
        ids_increasing(s),
    ensures
        lookup(inserted(s, id, v), id) == Some(v),
        forall|other: u64|
            other != id ==> #[trigger] lookup(inserted(s, id, v), other) == lookup(s, other),
{
    assert forall|other: u64| other != id implies #[trigger] lookup(inserted(s, id, v), other)
        == lookup(s, other) by {
        law_registry_read_after_write(s, id, v, other);
    }
    law_registry_read_after_write(s, id, v, if id == 0 { 1 } else { 0 });
}

proof fn lemma_removed<V>(s: Seq<(u64, V)>, id: u64)
    requires
        ids_increasing(s),
    ensures
        lookup(removed(s, id), id) is None,
        forall|other: u64| other != id ==> #[trigger] lookup(removed(s, id), other) == lookup(s, other),
{
    if s.len() > 0 {
        let w = s[0].1;
        assert forall|other: u64| other != id implies #[trigger] lookup(removed(s, id), other)
            == lookup(s, other) by {
            law_registry_read_after_write(s, id, w, other);
        }
        law_registry_read_after_write(s, id, w, if id == 0 { 1 } else { 0 });
    } else {
        assert(index_of(s, id) is None);
    }
}

} // verus!

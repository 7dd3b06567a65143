//! The admin page: queries of the admin space (`@/**`) and the decoding of
//! their replies into something displayable.

use vstd::prelude::*;
use vstd::utf8::{decode_utf8, encode_utf8, pop_first_scalar, valid_utf8};

use std::collections::VecDeque;

use crate::json::{json_accepts, json_value, parse_json};
use crate::task_zenoh::AdminQueryData;
use crate::text::{
    byte_hex, has_infix, hex_digit, push_char, str_contains, str_trim, str_trim_nul, trim_nul,
    trim_white, utf8_str,
};

verus! {

/// A reply payload as the page shows it.
pub enum AdminPayload {
    Json(serde_json::Value),
    Text(String),
    Binary { encoding: String, hex_preview: String, total_bytes: usize },
}

/// One successful reply of an admin query.
pub struct AdminResult {
    pub key: String,
    pub encoding: String,
    pub payload: AdminPayload,
}

/// The bytes that `flate2`'s gzip decoder yields for `data`, or `None` where
/// it reports an error.
pub uninterp spec fn gunzip(data: Seq<u8>) -> Option<Seq<u8>>;

/// Calls `flate2::read::GzDecoder::read_to_end` on `data`: the decompressed
/// bytes, or `None` when the decoder fails, as it does on data that does not
/// start with the gzip magic bytes (its header check).
#[verifier::external_body]
pub(crate) fn decompress_gzip(data: &[u8]) -> (r: Option<Vec<u8>>)
    ensures
        !gzip_magic(data@) ==> r is None,
        match r {
            Some(v) => gunzip(data@) == Some(v@),
            None => gunzip(data@) is None,
        },
{
    let mut out = Vec::new();
    match std::io::Read::read_to_end(&mut flate2::read::GzDecoder::new(data), &mut out) {
        Ok(_) => Some(out),
        Err(_) => None,
    }
}

/// The payload starts with the gzip magic bytes `1f 8b`.
pub open spec fn gzip_magic(p: Seq<u8>) -> bool {
    p.len() >= 2 && p[0] == 0x1f && p[1] == 0x8b
}

pub open spec fn word_gzip() -> Seq<char> {
    seq!['g', 'z', 'i', 'p']
}

pub open spec fn word_content_encoding_gzip() -> Seq<char> {
    seq![
        'c', 'o', 'n', 't', 'e', 'n', 't', '-', 'e', 'n', 'c', 'o', 'd', 'i', 'n', 'g', '=', 'g',
        'z', 'i', 'p',
    ]
}

/// The magic bytes or the encoding say that the payload is gzip-compressed.
pub open spec fn says_gzip(payload: Seq<u8>, encoding: Seq<char>) -> bool {
    ||| gzip_magic(payload)
    ||| has_infix(encoding, word_content_encoding_gzip())
    ||| has_infix(encoding, word_gzip())
}

/// The bytes that are read as text: the decompressed payload where it is
/// gzip and decompresses, else the payload itself.
pub open spec fn unpacked(payload: Seq<u8>, encoding: Seq<char>) -> Seq<u8> {
    if says_gzip(payload, encoding) {
        match gunzip(payload) {
            Some(d) => d,
            None => payload,
        }
    } else {
        payload
    }
}

/// Reading bytes as text: `None` unless they are UTF-8; else the text with NUL
/// characters and then white space trimmed from both ends, together with
/// whether it is a JSON document (the empty text is never taken for JSON).
pub open spec fn text_reading(bytes: Seq<u8>) -> Option<(bool, Seq<char>)> {
    if valid_utf8(bytes) {
        let t = trim_white(trim_nul(decode_utf8(bytes)));
        if t.len() == 0 {
            Some((false, t))
        } else {
            Some((json_accepts(t), t))
        }
    } else {
        None
    }
}

/// The little-endian number in the first four bytes.
pub open spec fn le_u32(d: Seq<u8>) -> int {
    d[0] + 256 * d[1] + 65536 * d[2] + 16777216 * d[3]
}

/// Reading a CDR string by its 4-byte little-endian length: where the length
/// is positive and fits, the text of that many bytes after it.
pub open spec fn framed_reading(data: Seq<u8>) -> Option<(bool, Seq<char>)> {
    if data.len() >= 5 {
        let claimed = le_u32(data);
        if 0 < claimed <= data.len() - 4 {
            text_reading(data.subrange(4, 4 + claimed))
        } else {
            None
        }
    } else {
        None
    }
}

/// Reading everything after a 4-byte prefix as text.
pub open spec fn rest_reading(data: Seq<u8>) -> Option<(bool, Seq<char>)> {
    if data.len() >= 5 {
        text_reading(data.subrange(4, data.len() as int))
    } else {
        None
    }
}

/// The text that a payload shows, if any: a CDR string (without its length
/// prefix) first, then the bytes as plain text, then the bytes after a
/// 4-byte prefix.
pub open spec fn payload_reading(payload: Seq<u8>, encoding: Seq<char>) -> Option<(bool, Seq<char>)> {
    let data = unpacked(payload, encoding);
    if framed_reading(data) is Some {
        framed_reading(data)
    } else if text_reading(data) is Some {
        text_reading(data)
    } else {
        rest_reading(data)
    }
}

/// What precedes the byte at index `i` in a hex dump: nothing at the start, a
/// line break every 16 bytes, else a space.
pub open spec fn hex_separator(i: int) -> Seq<char> {
    if i == 0 {
        seq![]
    } else if i % 16 == 0 {
        seq!['\n']
    } else {
        seq![' ']
    }
}

/// A hex dump: two lower-case digits per byte, 16 bytes per line.
pub open spec fn hex_text(bytes: Seq<u8>) -> Seq<char>
    decreases bytes.len(),
{
    if bytes.len() == 0 {
        seq![]
    } else {
        hex_text(bytes.drop_last()) + hex_separator(bytes.len() - 1) + byte_hex(bytes.last())
    }
}

/// The hex dump of at most the first 128 bytes (8 lines).
pub open spec fn hex_preview_of(payload: Seq<u8>) -> Seq<char> {
    hex_text(payload.take(if payload.len() < 128 { payload.len() as int } else { 128 }))
}

/// `p` shows the reading `r`: JSON as the value `serde_json` builds from the
/// text, other text as that text.
pub open spec fn shows_reading(p: AdminPayload, r: (bool, Seq<char>)) -> bool {
    match p {
        AdminPayload::Json(v) => r.0 && v == json_value(r.1),
        AdminPayload::Text(s) => !r.0 && s@ == r.1,
        AdminPayload::Binary { .. } => false,
    }
}

/// `p` is how `payload`, received with `encoding`, is displayed: its text
/// where it has one, else a hex preview of the raw bytes.
pub open spec fn decoded_as(p: AdminPayload, payload: Seq<u8>, encoding: Seq<char>) -> bool {
    match payload_reading(payload, encoding) {
        Some(r) => shows_reading(p, r),
        None => p matches AdminPayload::Binary { encoding: e, hex_preview: h, total_bytes: n } && e@
            == encoding && h@ == hex_preview_of(payload) && n == payload.len(),
    }
}

/// The hex preview of a payload: the first 128 bytes, 16 per line.
pub fn hex_preview(payload: &[u8]) -> (r: String)
    ensures
        r@ == hex_preview_of(payload@),
{
    let n: usize = if payload.len() < 128 {
        payload.len()
    } else {
        128
    };
    let mut s = String::new();
    let mut i: usize = 0;
    while i < n
        invariant
            0 <= i <= n,
            n <= payload@.len(),
            n == (if payload@.len() < 128 { payload@.len() as int } else { 128 }),
            s@ == hex_text(payload@.take(i as int)),
        decreases n - i,
    {
        let ghost before = s@;
        if i > 0 {
            if i % 16 == 0 {
                push_char(&mut s, '\n');
            } else {
                push_char(&mut s, ' ');
            }
        }
        assert(s@ == before + hex_separator(i as int));
        let b = payload[i];
        push_char(&mut s, hex_digit(b / 16));
        push_char(&mut s, hex_digit(b % 16));
        proof {
            let t = payload@.take(i + 1);
            assert(t.drop_last() =~= payload@.take(i as int));
            assert(t.last() == b);
            assert(s@ =~= before + hex_separator(i as int) + byte_hex(b));
        }
        i = i + 1;
    }
    s
}

/// Reads bytes as text (see `text_reading`).
fn read_text(bytes: &[u8]) -> (r: Option<AdminPayload>)
    ensures
        match text_reading(bytes@) {
            Some(t) => r matches Some(p) && shows_reading(p, t),
            None => r is None,
        },
{
    match utf8_str(bytes) {
        None => None,
        Some(s) => {
            let trimmed = str_trim(str_trim_nul(s));
            if trimmed.is_empty() {
                let empty = String::new();
                assert(empty@ =~= trimmed@);
                return Some(AdminPayload::Text(empty));
            }
            match parse_json(trimmed) {
                Some(v) => Some(AdminPayload::Json(v)),
                None => Some(AdminPayload::Text(trimmed.to_owned())),
            }
        },
    }
}

/// Decodes a reply payload for display: gzip is decompressed first (where the
/// magic bytes or the encoding say so and it succeeds); a CDR string (4-byte
/// length prefix) is shown without its prefix; other UTF-8 text is shown
/// trimmed; text is shown as a JSON tree where it parses; anything else
/// becomes a hex preview of the raw bytes.
pub fn decode_payload(payload: &[u8], encoding: &str) -> (r: AdminPayload)
    ensures
        decoded_as(r, payload@, encoding@),
{
    proof {
        reveal_strlit("content-encoding=gzip");
        reveal_strlit("gzip");
        assert("content-encoding=gzip"@ =~= word_content_encoding_gzip());
        assert("gzip"@ =~= word_gzip());
    }
    let magic = payload.len() >= 2 && payload[0] == 0x1f && payload[1] == 0x8b;
    let is_gzip = magic || str_contains(encoding, "content-encoding=gzip") || str_contains(
        encoding,
        "gzip",
    );
    assert(is_gzip == says_gzip(payload@, encoding@));
    let decompressed: Option<Vec<u8>> = if is_gzip {
        decompress_gzip(payload)
    } else {
        None
    };
    let data: &[u8] = match &decompressed {
        Some(d) => d.as_slice(),
        None => payload,
    };
    assert(data@ == unpacked(payload@, encoding@));
    if data.len() >= 5 {
        let claimed: u64 = data[0] as u64 + data[1] as u64 * 256 + data[2] as u64 * 65536
            + data[3] as u64 * 16777216;
        assert(claimed == le_u32(data@));
        if claimed > 0 && claimed <= (data.len() - 4) as u64 {
            let c = claimed as usize;
            if let Some(p) = read_text(&data[4..4 + c]) {
                return p;
            }
        }
    }
    if let Some(p) = read_text(data) {
        return p;
    }
    if data.len() >= 5 {
        if let Some(p) = read_text(&data[4..data.len()]) {
            return p;
        }
    }
    AdminPayload::Binary {
        encoding: encoding.to_owned(),
        hex_preview: hex_preview(payload),
        total_bytes: payload.len(),
    }
}

// ---- ordering of results by key ----

/// Lexicographic order of byte strings (a prefix comes first).
pub open spec fn bytes_le(a: Seq<u8>, b: Seq<u8>) -> bool
    decreases a.len(),
{
    if a.len() == 0 {
        true
    } else if b.len() == 0 {
        false
    } else if a[0] != b[0] {
        a[0] < b[0]
    } else {
        bytes_le(a.drop_first(), b.drop_first())
    }
}

/// The order of `String`: lexicographic by the UTF-8 bytes.
pub open spec fn key_le(a: Seq<char>, b: Seq<char>) -> bool {
    bytes_le(encode_utf8(a), encode_utf8(b))
}

pub open spec fn result_le(x: AdminResult, y: AdminResult) -> bool {
    key_le(x.key@, y.key@)
}

/// Every result's key is at most the keys of the results after it.
pub open spec fn sorted_by_key(s: Seq<AdminResult>) -> bool {
    forall|i: int, j: int| 0 <= i < j < s.len() ==> #[trigger] result_le(s[i], s[j])
}

/// `x` placed after the last element of `s`, counted from the end, whose key
/// is at most that of `x`.
pub open spec fn insert_by_key(s: Seq<AdminResult>, x: AdminResult) -> Seq<AdminResult>
    decreases s.len(),
{
    if s.len() == 0 {
        seq![x]
    } else if result_le(s.last(), x) {
        s.push(x)
    } else {
        insert_by_key(s.drop_last(), x).push(s.last())
    }
}

/// The stable sort of `s` by key: elements with equal keys keep their order.
pub open spec fn sort_by_key(s: Seq<AdminResult>) -> Seq<AdminResult>
    decreases s.len(),
{
    if s.len() == 0 {
        s
    } else {
        insert_by_key(sort_by_key(s.drop_last()), s.last())
    }
}

proof fn lemma_bytes_le_total(a: Seq<u8>, b: Seq<u8>)
    ensures
        bytes_le(a, b) || bytes_le(b, a),
    decreases a.len(),
{
    if a.len() > 0 && b.len() > 0 && a[0] == b[0] {
        lemma_bytes_le_total(a.drop_first(), b.drop_first());
    }
}

proof fn lemma_bytes_le_trans(a: Seq<u8>, b: Seq<u8>, c: Seq<u8>)
    requires
        bytes_le(a, b),
        bytes_le(b, c),
    ensures
        bytes_le(a, c),
    decreases a.len(),
{
    if a.len() > 0 && b.len() > 0 && c.len() > 0 && a[0] == b[0] && b[0] == c[0] {
        lemma_bytes_le_trans(a.drop_first(), b.drop_first(), c.drop_first());
    }
}

proof fn lemma_insert_by_key_at(s: Seq<AdminResult>, x: AdminResult, j: int)
    requires
        0 <= j <= s.len(),
        j == 0 || result_le(s[j - 1], x),
        forall|k: int| j <= k < s.len() ==> !#[trigger] result_le(s[k], x),
    ensures
        insert_by_key(s, x) == s.take(j).push(x) + s.skip(j),
    decreases s.len(),
{
    if s.len() == j {
        assert(s.take(j) =~= s);
        assert(s.skip(j) =~= Seq::<AdminResult>::empty());
        if j == 0 {
            assert(seq![x] =~= s.take(j).push(x) + s.skip(j));
        } else {
            assert(s.last() == s[j - 1]);
            assert(s.push(x) =~= s.take(j).push(x) + s.skip(j));
        }
    } else {
        assert(!result_le(s[s.len() - 1], x));
        let t = s.drop_last();
        assert forall|k: int| j <= k < t.len() implies !#[trigger] result_le(t[k], x) by {
            assert(t[k] == s[k]);
        }
        if j > 0 {
            assert(t[j - 1] == s[j - 1]);
        }
        lemma_insert_by_key_at(t, x, j);
        assert(t.take(j) =~= s.take(j));
        assert((t.take(j).push(x) + t.skip(j)).push(s.last()) =~= s.take(j).push(x) + s.skip(j));
    }
}

proof fn lemma_insert_by_key_sorted(s: Seq<AdminResult>, x: AdminResult)
    requires
        sorted_by_key(s),
    ensures
        sorted_by_key(insert_by_key(s, x)),
        insert_by_key(s, x).to_multiset() =~= s.to_multiset().insert(x),
        insert_by_key(s, x).len() == s.len() + 1,
    decreases s.len(),
{
    broadcast use vstd::seq_lib::group_to_multiset_ensures;

    if s.len() == 0 {
        assert(seq![x] =~= s.push(x));
    } else if result_le(s.last(), x) {
        let r = s.push(x);
        assert forall|i: int, j: int| 0 <= i < j < r.len() implies #[trigger] result_le(r[i], r[j]) by {
            if j == s.len() {
                if i < s.len() - 1 {
                    assert(result_le(s[i], s[s.len() - 1]));
                    lemma_bytes_le_trans(
                        encode_utf8(s[i].key@),
                        encode_utf8(s[s.len() - 1].key@),
                        encode_utf8(x.key@),
                    );
                }
            } else {
                assert(result_le(s[i], s[j]));
            }
        }
    } else {
        let t = s.drop_last();
        let last = s.last();
        assert(sorted_by_key(t)) by {
            assert forall|i: int, j: int| 0 <= i < j < t.len() implies #[trigger] result_le(t[i], t[j]) by {
                assert(result_le(s[i], s[j]));
            }
        }
        lemma_insert_by_key_sorted(t, x);
        let u = insert_by_key(t, x);
        let r = u.push(last);
        lemma_bytes_le_total(encode_utf8(last.key@), encode_utf8(x.key@));
        assert forall|i: int, j: int| 0 <= i < j < r.len() implies #[trigger] result_le(r[i], r[j]) by {
            if j == u.len() {
                // every element of u is t's or x, all at most last
                assert(u.to_multiset().count(u[i]) > 0);
                assert(u.contains(u[i]));
                if u[i] == x {
                } else {
                    assert(t.to_multiset().insert(x).count(u[i]) > 0);
                    assert(t.to_multiset().count(u[i]) > 0);
                    assert(t.contains(u[i]));
                    let k = choose|k: int| 0 <= k < t.len() && t[k] == u[i];
                    assert(result_le(s[k], s[s.len() - 1]));
                }
            } else {
                assert(result_le(u[i], u[j]));
            }
        }
        assert(r.to_multiset() =~= s.to_multiset().insert(x)) by {
            assert(s == t.push(last));
        }
    }
}

/// The stable sort by key is sorted and holds the same results.
pub proof fn lemma_sort_by_key(s: Seq<AdminResult>)
    ensures
        sorted_by_key(sort_by_key(s)),
        sort_by_key(s).to_multiset() =~= s.to_multiset(),
        sort_by_key(s).len() == s.len(),
    decreases s.len(),
{
    broadcast use vstd::seq_lib::group_to_multiset_ensures;

    if s.len() > 0 {
        lemma_sort_by_key(s.drop_last());
        lemma_insert_by_key_sorted(sort_by_key(s.drop_last()), s.last());
        assert(s == s.drop_last().push(s.last()));
    }
}

/// Compares byte strings lexicographically.
fn bytes_le_exec(a: &[u8], b: &[u8]) -> (r: bool)
    ensures
        r == bytes_le(a@, b@),
{
    let mut i: usize = 0;
    assert(a@.skip(0) =~= a@);
    assert(b@.skip(0) =~= b@);
    while i < a.len() && i < b.len() && a[i] == b[i]
        invariant
            i <= a.len(),
            i <= b.len(),
            bytes_le(a@, b@) == bytes_le(a@.skip(i as int), b@.skip(i as int)),
        decreases a.len() - i,
    {
        assert(a@.skip(i as int).drop_first() =~= a@.skip(i + 1));
        assert(b@.skip(i as int).drop_first() =~= b@.skip(i + 1));
        i = i + 1;
    }
    if i == a.len() {
        true
    } else if i == b.len() {
        false
    } else {
        assert(a@.skip(i as int)[0] == a@[i as int]);
        assert(b@.skip(i as int)[0] == b@[i as int]);
        a[i] < b[i]
    }
}

/// Compares two keys as `String`s are ordered.
fn key_le_exec(a: &String, b: &String) -> (r: bool)
    ensures
        r == key_le(a@, b@),
{
    bytes_le_exec(a.as_str().as_bytes(), b.as_str().as_bytes())
}

/// Sorts results by key, keeping the order of equal keys.
pub fn sort_results(v: &mut Vec<AdminResult>)
    ensures
        final(v)@ == sort_by_key(old(v)@),
        sorted_by_key(final(v)@),
        final(v)@.to_multiset() =~= old(v)@.to_multiset(),
{
    let ghost orig = v@;
    let n = v.len();
    let mut i: usize = 0;
    while i < n
        invariant
            0 <= i <= n,
            n == orig.len(),
            v@.len() == n,
            v@.take(i as int) == sort_by_key(orig.take(i as int)),
            v@.skip(i as int) == orig.skip(i as int),
        decreases n - i,
    {
        let ghost before = v@;
        let x = v.remove(i);
        assert(x == orig[i as int]) by {
            assert(before.skip(i as int)[0] == before[i as int]);
        }
        let mut j: usize = i;
        while j > 0 && !key_le_exec(&v[j - 1].key, &x.key)
            invariant
                0 <= j <= i,
                i < n,
                before.len() == n,
                v@ == before.remove(i as int),
                forall|k: int| j <= k < i ==> !#[trigger] result_le(v@[k], x),
            decreases j,
        {
            j = j - 1;
        }
        proof {
            let s = before.take(i as int);
            assert(v@.take(i as int) =~= s);
            assert forall|k: int| j <= k < s.len() implies !#[trigger] result_le(s[k], x) by {
                assert(s[k] == v@[k]);
            }
            if j > 0 {
                assert(s[j - 1] == v@[j - 1]);
            }
            lemma_insert_by_key_at(s, x, j as int);
        }
        v.insert(j, x);
        proof {
            assert(orig.take(i + 1).drop_last() =~= orig.take(i as int));
            assert(orig.take(i + 1).last() == x);
            assert(v@.take(i + 1) =~= before.take(i as int).take(j as int).push(x)
                + before.take(i as int).skip(j as int));
            assert forall|k: int| 0 <= k < n - (i + 1) implies #[trigger] v@.skip(i + 1)[k]
                == orig.skip(i + 1)[k] by {
                assert(v@.skip(i + 1)[k] == before[i + 1 + k]);
                assert(before.skip(i as int)[k + 1] == orig.skip(i as int)[k + 1]);
            }
            assert(v@.skip(i + 1) =~= orig.skip(i + 1));
        }
        i = i + 1;
    }
    proof {
        assert(orig.take(n as int) =~= orig);
        assert(v@.take(n as int) =~= v@);
        lemma_sort_by_key(orig);
    }
}

// ---- the page ----

/// What the page asks of the session task.
pub enum Event {
    Query(Box<AdminQueryData>),
}

/// Most results that the page keeps of one query.
pub const MAX_RESULTS: usize = 500;

/// The admin page.
pub struct PageAdmin {
    pub events: VecDeque<Event>,
    pub key_expr: String,
    pub timeout_ms: u64,
    pub query_id_count: u64,
    pub current_query_id: u64,
    pub is_querying: bool,
    pub results: Vec<AdminResult>,
    pub result_count: usize,
    pub err_str: Option<String>,
}

pub open spec fn default_admin_key() -> Seq<char> {
    seq!['@', '/', '*', '*']
}

impl Default for PageAdmin {
    fn default() -> (r: Self)
        ensures
            admin_counts_wf(r),
            r.events@.len() == 0,
            r.key_expr@ == default_admin_key(),
            r.timeout_ms == 5000,
            r.query_id_count == 0,
            r.current_query_id == 0,
            !r.is_querying,
            r.results@.len() == 0,
            r.result_count == 0,
            r.err_str is None,
    {
        proof {
            reveal_strlit("@/**");
            assert("@/**"@ =~= default_admin_key());
        }
        PageAdmin {
            events: VecDeque::new(),
            key_expr: "@/**".to_owned(),
            timeout_ms: 5000,
            query_id_count: 0,
            current_query_id: 0,
            is_querying: false,
            results: Vec::new(),
            result_count: 0,
            err_str: None,
        }
    }
}

/// `b` equals `a` but for the result list and count.
pub open spec fn same_query_setup(a: PageAdmin, b: PageAdmin) -> bool {
    &&& b.events == a.events
    &&& b.key_expr == a.key_expr
    &&& b.timeout_ms == a.timeout_ms
    &&& b.query_id_count == a.query_id_count
    &&& b.current_query_id == a.current_query_id
    &&& b.is_querying == a.is_querying
    &&& b.err_str == a.err_str
}

/// The effect of a reply: a reply to an older query changes nothing; else it
/// is counted, and kept (decoded) when it is a success and fewer than
/// `MAX_RESULTS` are kept.
pub open spec fn query_res_step(
    a: PageAdmin,
    b: PageAdmin,
    id: u64,
    key: Seq<char>,
    encoding: Seq<char>,
    payload: Seq<u8>,
    is_ok: bool,
) -> bool {
    if id != a.current_query_id {
        b == a
    } else {
        &&& same_query_setup(a, b)
        &&& b.result_count == a.result_count + 1
        &&& if is_ok && a.results@.len() < MAX_RESULTS {
            &&& b.results@.len() == a.results@.len() + 1
            &&& b.results@.drop_last() == a.results@
            &&& b.results@.last().key@ == key
            &&& b.results@.last().encoding@ == encoding
            &&& decoded_as(b.results@.last().payload, payload, encoding)
        } else {
            b.results@ == a.results@
        }
    }
}

/// The effect of the end of a query: for the current query, the querying
/// stops and the results are sorted by key (stably); otherwise nothing.
pub open spec fn query_done_step(a: PageAdmin, b: PageAdmin, id: u64) -> bool {
    if id == a.current_query_id {
        &&& b.events == a.events
        &&& b.key_expr == a.key_expr
        &&& b.timeout_ms == a.timeout_ms
        &&& b.query_id_count == a.query_id_count
        &&& b.current_query_id == a.current_query_id
        &&& !b.is_querying
        &&& b.err_str == a.err_str
        &&& b.result_count == a.result_count
        &&& b.results@ == sort_by_key(a.results@)
    } else {
        b == a
    }
}

pub open spec fn not_connected_text() -> Seq<char> {
    seq![
        'n', 'o', 't', ' ', 'c', 'o', 'n', 'n', 'e', 'c', 't', 'e', 'd', ' ', 't', 'o', ' ', 'a',
        ' ', 'z', 'e', 'n', 'o', 'h', ' ', 's', 'e', 's', 's', 'i', 'o', 'n',
    ]
}

/// Starting a query: the next id becomes current, earlier results and the
/// error are dropped, and the query goes to the session task.
pub open spec fn start_query_step(a: PageAdmin, b: PageAdmin) -> bool {
    &&& b.query_id_count == a.query_id_count + 1
    &&& b.current_query_id == b.query_id_count
    &&& b.is_querying
    &&& b.results@.len() == 0
    &&& b.result_count == 0
    &&& b.err_str is None
    &&& b.key_expr == a.key_expr
    &&& b.timeout_ms == a.timeout_ms
    &&& b.events@ == a.events@.push(
        Event::Query(
            Box::new(
                (AdminQueryData {
                    id: b.current_query_id,
                    key_expr: a.key_expr,
                    timeout_ms: a.timeout_ms,
                }),
            ),
        ),
    )
}

/// No session is open: the query stops with an error, nothing else changes.
pub open spec fn not_connected_step(a: PageAdmin, b: PageAdmin) -> bool {
    &&& !b.is_querying
    &&& (b.err_str matches Some(e) && e@ == not_connected_text())
    &&& b.events == a.events
    &&& b.key_expr == a.key_expr
    &&& b.timeout_ms == a.timeout_ms
    &&& b.query_id_count == a.query_id_count
    &&& b.current_query_id == a.current_query_id
    &&& b.results == a.results
    &&& b.result_count == a.result_count
}

/// The page keeps at most `MAX_RESULTS` results, and never more than the
/// replies it counted.
pub open spec fn admin_counts_wf(p: PageAdmin) -> bool {
    p.results@.len() <= MAX_RESULTS && p.results@.len() <= p.result_count
}

impl PageAdmin {
    /// Whether a query can be started: not while one is outstanding.
    pub fn can_start_query(&self) -> (r: bool)
        ensures
            r == !self.is_querying,
    {
        !self.is_querying
    }

    /// Starts a query with the next id; earlier results are dropped and the
    /// query is handed to the session task.
    pub fn start_query(&mut self)
        requires
            old(self).query_id_count < u64::MAX,
        ensures
            start_query_step(*old(self), *final(self)),
    {
        self.query_id_count = self.query_id_count + 1;
        self.current_query_id = self.query_id_count;
        self.is_querying = true;
        self.results.clear();
        self.result_count = 0;
        self.err_str = None;
        let data = AdminQueryData {
            id: self.current_query_id,
            key_expr: self.key_expr.clone(),
            timeout_ms: self.timeout_ms,
        };
        self.events.push_back(Event::Query(Box::new(data)));
    }

    /// Records that no session is open: the query stops with an error.
    pub fn set_not_connected(&mut self)
        ensures
            not_connected_step(*old(self), *final(self)),
    {
        proof {
            reveal_strlit("not connected to a zenoh session");
            assert("not connected to a zenoh session"@ =~= not_connected_text());
        }
        self.is_querying = false;
        self.err_str = Some("not connected to a zenoh session".to_owned());
    }

    /// Takes one reply of a query (see `query_res_step`).
    pub fn processing_query_res(
        &mut self,
        id: u64,
        key: String,
        encoding: String,
        payload: Vec<u8>,
        is_ok: bool,
    )
        requires
            id == old(self).current_query_id ==> old(self).result_count < usize::MAX,
        ensures
            query_res_step(*old(self), *final(self), id, key@, encoding@, payload@, is_ok),
    {
        if id != self.current_query_id {
            return;
        }
        self.result_count = self.result_count + 1;
        if is_ok && self.results.len() < MAX_RESULTS {
            let decoded = decode_payload(payload.as_slice(), encoding.as_str());
            let ghost before = self.results@;
            self.results.push(AdminResult { key, encoding, payload: decoded });
            assert(self.results@.drop_last() =~= before);
        }
    }

    /// Takes the end of a query (see `query_done_step`).
    pub fn processing_query_done(&mut self, id: u64)
        ensures
            query_done_step(*old(self), *final(self), id),
    {
        if id == self.current_query_id {
            self.is_querying = false;
            sort_results(&mut self.results);
        }
    }
}

/// However replies arrive, a page never keeps more than `MAX_RESULTS` of them.
pub proof fn law_results_capped(
    a: PageAdmin,
    b: PageAdmin,
    id: u64,
    key: Seq<char>,
    encoding: Seq<char>,
    payload: Seq<u8>,
    is_ok: bool,
)
    requires
        a.results@.len() <= MAX_RESULTS,
        query_res_step(a, b, id, key, encoding, payload, is_ok),
    ensures
        b.results@.len() <= MAX_RESULTS,
{
}

/// When a query ends, its results are in key order and none is lost or added.
pub proof fn law_done_sorts(a: PageAdmin, b: PageAdmin)
    requires
        query_done_step(a, b, a.current_query_id),
    ensures
        sorted_by_key(b.results@),
        b.results@.to_multiset() =~= a.results@.to_multiset(),
        !b.is_querying,
{
    lemma_sort_by_key(a.results@);
}

/// A reply to a query other than the current one changes nothing.
pub proof fn law_stale_reply_ignored(
    a: PageAdmin,
    b: PageAdmin,
    id: u64,
    key: Seq<char>,
    encoding: Seq<char>,
    payload: Seq<u8>,
    is_ok: bool,
)
    requires
        id != a.current_query_id,
        query_res_step(a, b, id, key, encoding, payload, is_ok),
    ensures
        b == a,
{
}

/// Every step of the page keeps at most `MAX_RESULTS` results and never more
/// results than counted replies.
pub proof fn law_admin_counts(
    a: PageAdmin,
    b: PageAdmin,
    id: u64,
    key: Seq<char>,
    encoding: Seq<char>,
    payload: Seq<u8>,
    is_ok: bool,
)
    requires
        admin_counts_wf(a),
        start_query_step(a, b) || not_connected_step(a, b) || query_res_step(
            a,
            b,
            id,
            key,
            encoding,
            payload,
            is_ok,
        ) || query_done_step(a, b, id),
    ensures
        admin_counts_wf(b),
{
    if query_done_step(a, b, id) && id == a.current_query_id {
        lemma_sort_by_key(a.results@);
    }
}

/// `p` and `q` display the same text, or the same JSON value.
pub open spec fn same_display(p: AdminPayload, q: AdminPayload) -> bool {
    match (p, q) {
        (AdminPayload::Json(a), AdminPayload::Json(b)) => a == b,
        (AdminPayload::Text(a), AdminPayload::Text(b)) => a@ == b@,
        _ => false,
    }
}

/// A gzip stream is displayed as its contents are: where it decompresses to
/// UTF-8 bytes, whatever encoding it came with, it reads as those bytes read
/// without one, and shows the same text or the same JSON value.
pub proof fn law_gzip_shows_contents(
    gz: Seq<u8>,
    body: Seq<u8>,
    encoding: Seq<char>,
    p: AdminPayload,
    q: AdminPayload,
)
    requires
        gzip_magic(gz),
        gunzip(gz) == Some(body),
        valid_utf8(body),
        decoded_as(p, gz, encoding),
        decoded_as(q, body, seq![]),
    ensures
        payload_reading(body, seq![]) is Some,
        payload_reading(gz, encoding) == payload_reading(body, seq![]),
        same_display(p, q),
{
    if gzip_magic(body) {
        reveal_with_fuel(valid_utf8, 2);
        assert(valid_utf8(pop_first_scalar(body)));
        assert(pop_first_scalar(body)[0] == 0x8b);
        assert(false);
    }
    assert(unpacked(body, seq![]) == body);
}

/// A payload is shown as binary exactly where it has no text reading, and
/// then with its encoding and the count of all its bytes, however many of
/// them the preview shows.
pub proof fn law_binary_counts_all_bytes(p: AdminPayload, payload: Seq<u8>, encoding: Seq<char>)
    requires
        decoded_as(p, payload, encoding),
    ensures
        (p is Binary) == (payload_reading(payload, encoding) is None),
        p matches AdminPayload::Binary { encoding: e, total_bytes: n, .. } ==> e@ == encoding
            && n == payload.len(),
{
}

/// Keys are ordered as `String` orders them, byte by byte whatever their
/// lengths: a prefix comes first, and otherwise the first byte that differs
/// decides.
pub proof fn law_key_order_is_bytewise(a: Seq<u8>, b: Seq<u8>, i: int)
    ensures
        a.len() <= b.len() && b.take(a.len() as int) == a ==> bytes_le(a, b),
        0 <= i < a.len() && i < b.len() && a.take(i) == b.take(i) && a[i] != b[i] ==> (bytes_le(
            a,
            b,
        ) <==> a[i] < b[i]),
    decreases a.len(),
{
    if a.len() > 0 && b.len() > 0 {
        if a.len() <= b.len() && b.take(a.len() as int) == a {
            assert(b.take(a.len() as int)[0] == b[0]);
        }
        if 0 < i < a.len() && i < b.len() && a.take(i) == b.take(i) {
            assert(a.take(i)[0] == a[0]);
            assert(b.take(i)[0] == b[0]);
        }
        if a[0] == b[0] {
            let (a1, b1) = (a.drop_first(), b.drop_first());
            law_key_order_is_bytewise(a1, b1, i - 1);
            if a.len() <= b.len() && b.take(a.len() as int) == a {
                assert(b1.take(a1.len() as int) =~= a1) by {
                    assert forall|k: int| 0 <= k < a1.len() implies b1.take(a1.len() as int)[k]
                        == a1[k] by {
                        assert(b.take(a.len() as int)[k + 1] == a[k + 1]);
                    }
                }
            }
            if 0 < i < a.len() && i < b.len() && a.take(i) == b.take(i) {
                assert(a1.take(i - 1) =~= b1.take(i - 1)) by {
                    assert forall|k: int| 0 <= k < i - 1 implies #[trigger] a1.take(i - 1)[k] == b1.take(i - 1)[k] by {
                        assert(a.take(i)[k + 1] == b.take(i)[k + 1]);
                    }
                }
            }
        }
    }
}

} // verus!

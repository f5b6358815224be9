//! The request router: parses the request line and path of a textual
//! HTTP request, dispatches to the add / list / fetch / remove
//! operation, and renders the outcome as a transport-ready response
//! string.
//!
//! What each handler returns is pinned by spec functions over the
//! request text. Where the outcome depends on the state a table held
//! when its lock was acquired (a concurrent request may have changed it
//! a moment earlier), the contract quantifies over that observed state:
//! every possible answer is the exact response for some well-formed
//! observed table.

use vstd::prelude::*;
use vstd::string::StrSliceExecFns;
use vstd::string::StringExecFns;

use crate::codec::parse_body;
use crate::codec::push_escaped;
use crate::codec::push_opt_order_json;
use crate::codec::push_orders_json;
use crate::codec::push_payload_json;
use crate::codec::spec_escape;
use crate::codec::spec_opt_order_json;
use crate::codec::spec_orders_json;
use crate::codec::spec_parse_body;
use crate::codec::spec_payload_json;
use crate::order::Order;
use crate::restaurant::Restaurant;
use crate::table::all_at_table;
use crate::table::distinct_item_ids;
use crate::table::map_of;
use crate::text::chars_eq_str;
use crate::text::chars_start_with_str;
use crate::text::chars_to_string;
use crate::text::find_char_from;
use crate::text::is_ws;
use crate::text::lemma_first_non_ws_is;
use crate::text::lemma_first_ws_is;
use crate::text::lemma_index_of_is;
use crate::text::parse_u32;
use crate::text::push_dec;
use crate::text::push_str_chars;
use crate::text::spec_dec;
use crate::text::spec_first_line;
use crate::text::spec_index_of;
use crate::text::spec_parse_u32;
use crate::text::spec_split;
use crate::text::spec_ws_tokens;
use crate::text::str_chars;

verus! {

/// `a` begins with `b`.
pub open spec fn spec_starts_with(a: Seq<char>, b: Seq<char>) -> bool {
    a.len() >= b.len() && a.take(b.len() as int) == b
}

/// A blank line (`\r\n\r\n`) stands at `i`.
pub open spec fn spec_crlf2_at(s: Seq<char>, i: int) -> bool {
    &&& i + 4 <= s.len()
    &&& s[i] == '\r'
    &&& s[i + 1] == '\n'
    &&& s[i + 2] == '\r'
    &&& s[i + 3] == '\n'
}

/// Index of the first blank line, or `s.len()` when there is none.
pub open spec fn spec_find_crlf2(s: Seq<char>) -> int
    decreases s.len(),
{
    if s.len() == 0 {
        0
    } else if spec_crlf2_at(s, 0) {
        0
    } else {
        1 + spec_find_crlf2(s.skip(1))
    }
}

pub proof fn lemma_find_crlf2_is(s: Seq<char>, i: int)
    requires
        0 <= i <= s.len(),
        forall|j: int| 0 <= j < i ==> !spec_crlf2_at(s, j),
        i < s.len() ==> spec_crlf2_at(s, i),
    ensures
        spec_find_crlf2(s) == i,
    decreases s.len(),
{
    if s.len() > 0 && !spec_crlf2_at(s, 0) {
        let u = s.skip(1);
        assert(forall|j: int| 0 <= j < u.len() ==> u[j] == s[j + 1]);
        assert forall|j: int| 0 <= j < i - 1 implies !spec_crlf2_at(u, j) by {
            assert(!spec_crlf2_at(s, j + 1));
            if j + 4 <= u.len() {
                assert(u[j] == s[j + 1]);
                assert(u[j + 1] == s[j + 2]);
                assert(u[j + 2] == s[j + 3]);
                assert(u[j + 3] == s[j + 4]);
            }
        }
        if i - 1 < u.len() {
            assert(spec_crlf2_at(s, i));
            assert(u[i - 1] == s[i]);
            assert(u[i] == s[i + 1]);
            assert(u[i + 1] == s[i + 2]);
            assert(u[i + 2] == s[i + 3]);
            assert(spec_crlf2_at(u, i - 1));
        }
        lemma_find_crlf2_is(u, i - 1);
    }
}

/// A `200 OK` response carrying `body`.
pub open spec fn spec_ok_response(body: Seq<char>) -> Seq<char> {
    "HTTP/1.1 200 OK\r\n\r\n"@ + body
}

/// The JSON failure body carrying `msg`.
pub open spec fn spec_body_fail(msg: Seq<char>) -> Seq<char> {
    "{\"message\":\""@ + msg + "\",\"success\":false}"@
}

/// The JSON success body that echoes `data` as an embedded, escaped
/// JSON string.
pub open spec fn spec_body_success_data(data: Seq<char>) -> Seq<char> {
    "{\"data\":\""@ + spec_escape(data) + "\",\"message\":\"Success!\",\"success\":true}"@
}

/// The JSON success body naming a removed order.
pub open spec fn spec_body_removed(item_id: u32, table_id: u32) -> Seq<char> {
    "{\"message\":\"Removed "@ + spec_dec(item_id as nat) + " from table "@ + spec_dec(
        table_id as nat,
    ) + "\",\"success\":true}"@
}

/// A handler failure, wrapped as the transport sends it.
pub open spec fn spec_wrap400(res: Result<Seq<char>, Seq<char>>) -> Seq<char> {
    match res {
        Ok(b) => b,
        Err(e) => "HTTP/1.1 400 Bad Request\r\n\r\n"@ + e,
    }
}

/// Does the `Result` of strings carry exactly these characters?
pub open spec fn res_matches(
    r: Result<String, String>,
    s: Result<Seq<char>, Seq<char>>,
) -> bool {
    match (r, s) {
        (Ok(a), Ok(b)) => a@ == b,
        (Err(a), Err(b)) => a@ == b,
        _ => false,
    }
}

/// What POST returns, as a function of the whole request text and the
/// store capacity: POST mutates a table but its response does not
/// depend on prior table state.
pub open spec fn spec_post_result(req: Seq<char>, num_tables: nat) -> Result<
    Seq<char>,
    Seq<char>,
> {
    let b = spec_find_crlf2(req);
    if b >= req.len() {
        Err("Invalid request"@)
    } else {
        match spec_parse_body(req.skip(b + 4)) {
            None => Err(
                spec_body_fail("Failed to parse order request: malformed order payload"@),
            ),
            Some((tid, items)) => {
                if tid as nat >= num_tables {
                    Err("Invalid table id"@)
                } else {
                    Ok(
                        spec_ok_response(
                            spec_body_success_data(spec_payload_json(tid, items)),
                        ),
                    )
                }
            },
        }
    }
}

/// What DELETE returns, given the path and the table state `m` observed
/// under the lock.
pub open spec fn spec_delete_result(path: Seq<char>, num_tables: nat, m: Map<u32, Order>)
    -> Result<Seq<char>, Seq<char>> {
    let parts = spec_split(path, '/');
    if parts.len() != 4 {
        Err(spec_body_fail("Invalid path"@))
    } else {
        match spec_parse_u32(parts[2]) {
            None => Err("Invalid table id"@),
            Some(tid) => match spec_parse_u32(parts[3]) {
                None => Err("Invalid item id"@),
                Some(iid) => {
                    if tid as nat >= num_tables {
                        Err("Invalid table id"@)
                    } else if m.contains_key(iid) {
                        Ok(spec_ok_response(spec_body_removed(iid, tid)))
                    } else {
                        Err(spec_body_fail("Order not found"@))
                    }
                },
            },
        }
    }
}

/// What GET returns, given the path and the listing `s` of the table
/// state observed under the lock.
pub open spec fn spec_get_result(path: Seq<char>, num_tables: nat, s: Seq<Order>) -> Result<
    Seq<char>,
    Seq<char>,
> {
    let parts = spec_split(path, '/');
    if parts.len() < 3 {
        Err("Invalid table id"@)
    } else {
        match spec_parse_u32(parts[2]) {
            None => Err("Invalid table id"@),
            Some(tid) => {
                if tid as nat >= num_tables {
                    Err("Invalid table id"@)
                } else if parts.len() == 3 {
                    Ok(spec_ok_response(spec_body_success_data(spec_orders_json(s))))
                } else if parts.len() == 5 {
                    match spec_parse_u32(parts[4]) {
                        None => Err("Invalid item id"@),
                        Some(iid) => Ok(
                            spec_ok_response(
                                spec_body_success_data(
                                    spec_opt_order_json(
                                        if map_of(s).contains_key(iid) {
                                            Some(map_of(s)[iid])
                                        } else {
                                            None
                                        },
                                    ),
                                ),
                            ),
                        ),
                    }
                } else {
                    Err("Invalid path"@)
                }
            },
        }
    }
}

/// An admissible observed listing for a GET on `path`: well-formed for
/// the table the path names.
pub open spec fn spec_get_witness(path: Seq<char>, s: Seq<Order>) -> bool {
    let parts = spec_split(path, '/');
    &&& distinct_item_ids(s)
    &&& (parts.len() >= 3 ==> match spec_parse_u32(parts[2]) {
        Some(tid) => all_at_table(s, tid),
        None => true,
    })
}

/// Any payload the POST route accepts is echoed verbatim: when the body
/// decodes to `(table_id, items)` and the table id is in range, the
/// success response embeds exactly the canonical rendering of that
/// payload, field for field.
pub proof fn lemma_post_echoes_payload(
    req: Seq<char>,
    num_tables: nat,
    table_id: u32,
    items: Seq<u32>,
)
    requires
        spec_find_crlf2(req) < req.len(),
        spec_parse_body(req.skip(spec_find_crlf2(req) + 4)) == Some((table_id, items)),
        (table_id as nat) < num_tables,
    ensures
        spec_post_result(req, num_tables) == Ok::<Seq<char>, Seq<char>>(
            spec_ok_response(spec_body_success_data(spec_payload_json(table_id, items))),
        ),
{
}

/// Reads are idempotent: two GETs for the same path against the same
/// observed table listing yield identical responses — a read takes the
/// table by shared reference and cannot change it in between.
pub proof fn lemma_get_read_idempotent(
    path: Seq<char>,
    num_tables: nat,
    s1: Seq<Order>,
    s2: Seq<Order>,
)
    requires
        s1 == s2,
    ensures
        spec_get_result(path, num_tables, s1) == spec_get_result(path, num_tables, s2),
{
}

/// Some admissible observed listing explains the GET response `resp`.
pub open spec fn spec_get_response_ok(resp: Seq<char>, path: Seq<char>, num_tables: nat) -> bool {
    exists|s: Seq<Order>|
        spec_get_witness(path, s) && resp == spec_wrap400(spec_get_result(path, num_tables, s))
}

/// An all-whitespace tail yields no tokens.
proof fn lemma_ws_tokens_end(s: Seq<char>, pos: int)
    requires
        0 <= pos <= s.len(),
        forall|j: int| pos <= j < s.len() ==> is_ws(s[j]),
    ensures
        spec_ws_tokens(s.skip(pos)) == Seq::<Seq<char>>::empty(),
{
    let u = s.skip(pos);
    assert(forall|j: int| 0 <= j < u.len() ==> u[j] == s[j + pos]);
    lemma_first_non_ws_is(u, u.len() as int);
}

/// A tail whose first token spans `[i, j)` yields that token and the
/// tokens of the rest.
proof fn lemma_ws_tokens_step(s: Seq<char>, pos: int, i: int, j: int)
    requires
        0 <= pos <= i < j <= s.len(),
        forall|k: int| pos <= k < i ==> is_ws(s[k]),
        !is_ws(s[i]),
        forall|k: int| i <= k < j ==> !is_ws(s[k]),
        j < s.len() ==> is_ws(s[j]),
    ensures
        spec_ws_tokens(s.skip(pos)) == seq![s.subrange(i, j)] + spec_ws_tokens(s.skip(j)),
{
    let u = s.skip(pos);
    assert(forall|k: int| 0 <= k < u.len() ==> u[k] == s[k + pos]);
    lemma_first_non_ws_is(u, i - pos);
    let t = u.skip(i - pos);
    assert(t =~= s.skip(i));
    let t2 = s.skip(i);
    assert(forall|k: int| 0 <= k < t2.len() ==> t2[k] == s[k + i]);
    lemma_first_ws_is(t2, j - i);
    assert(t2.take(j - i) =~= s.subrange(i, j));
    assert(t2.skip(j - i) =~= s.skip(j));
}

/// A tail that still holds a non-whitespace character yields at least
/// one token.
proof fn lemma_ws_tokens_nonempty(s: Seq<char>, pos: int, i: int)
    requires
        0 <= pos <= i < s.len(),
        forall|k: int| pos <= k < i ==> is_ws(s[k]),
        !is_ws(s[i]),
    ensures
        spec_ws_tokens(s.skip(pos)).len() >= 1,
{
    let u = s.skip(pos);
    assert(forall|k: int| 0 <= k < u.len() ==> u[k] == s[k + pos]);
    lemma_first_non_ws_is(u, i - pos);
}

/// Is `c` whitespace, executably?
fn is_ws_char(c: char) -> (r: bool)
    ensures
        r == is_ws(c),
{
    let u = c as u32;
    u == 32 || (9 <= u && u <= 13)
}

/// First non-whitespace index at or after `from`.
fn skip_ws(v: &[char], from: usize) -> (r: usize)
    requires
        from <= v@.len(),
    ensures
        from <= r <= v@.len(),
        forall|j: int| from <= j < r ==> is_ws(v@[j]),
        r < v@.len() ==> !is_ws(v@[r as int]),
{
    let mut i: usize = from;
    while i < v.len() && is_ws_char(v[i])
        invariant
            from <= i <= v@.len(),
            forall|j: int| from <= j < i ==> is_ws(v@[j]),
        decreases v@.len() - i,
    {
        i = i + 1;
    }
    i
}

/// First whitespace index at or after `from`.
fn token_end(v: &[char], from: usize) -> (r: usize)
    requires
        from <= v@.len(),
    ensures
        from <= r <= v@.len(),
        forall|j: int| from <= j < r ==> !is_ws(v@[j]),
        r < v@.len() ==> is_ws(v@[r as int]),
{
    let mut i: usize = from;
    while i < v.len() && !is_ws_char(v[i])
        invariant
            from <= i <= v@.len(),
            forall|j: int| from <= j < i ==> !is_ws(v@[j]),
        decreases v@.len() - i,
    {
        i = i + 1;
    }
    i
}

/// The method and path of a request line that splits into exactly three
/// whitespace-separated tokens; `None` for any other token count.
fn request_tokens(v: &[char]) -> (r: Option<(Vec<char>, Vec<char>)>)
    ensures
        match r {
            Some(mp) => spec_ws_tokens(v@).len() == 3 && mp.0@ == spec_ws_tokens(v@)[0]
                && mp.1@ == spec_ws_tokens(v@)[1],
            None => spec_ws_tokens(v@).len() != 3,
        },
{
    proof {
        assert(v@.skip(0) =~= v@);
    }
    let ghost toks = spec_ws_tokens(v@);
    let i0 = skip_ws(v, 0);
    if i0 == v.len() {
        proof {
            lemma_ws_tokens_end(v@, 0);
        }
        return None;
    }
    let j0 = token_end(v, i0);
    proof {
        lemma_ws_tokens_step(v@, 0, i0 as int, j0 as int);
    }
    let t0 = vstd::slice::slice_to_vec(vstd::slice::slice_subrange(v, i0, j0));
    let i1 = skip_ws(v, j0);
    if i1 == v.len() {
        proof {
            lemma_ws_tokens_end(v@, j0 as int);
            assert(toks.len() == 1);
        }
        return None;
    }
    let j1 = token_end(v, i1);
    proof {
        lemma_ws_tokens_step(v@, j0 as int, i1 as int, j1 as int);
    }
    let t1 = vstd::slice::slice_to_vec(vstd::slice::slice_subrange(v, i1, j1));
    let i2 = skip_ws(v, j1);
    if i2 == v.len() {
        proof {
            lemma_ws_tokens_end(v@, j1 as int);
            assert(toks.len() == 2);
        }
        return None;
    }
    let j2 = token_end(v, i2);
    proof {
        lemma_ws_tokens_step(v@, j1 as int, i2 as int, j2 as int);
    }
    let i3 = skip_ws(v, j2);
    if i3 < v.len() {
        proof {
            lemma_ws_tokens_nonempty(v@, j2 as int, i3 as int);
            assert(toks.len() >= 4);
        }
        return None;
    }
    proof {
        lemma_ws_tokens_end(v@, j2 as int);
        assert(toks.len() == 3);
        assert(toks[0] == v@.subrange(i0 as int, j0 as int));
        assert(toks[1] == v@.subrange(i1 as int, j1 as int));
    }
    Some((t0, t1))
}

/// Index right after the first blank line, or `None` when the request
/// has none.
fn find_body_start(v: &[char]) -> (r: Option<usize>)
    ensures
        match r {
            Some(b) => spec_find_crlf2(v@) == b - 4 && 4 <= b <= v@.len(),
            None => spec_find_crlf2(v@) >= v@.len(),
        },
{
    if v.len() < 4 {
        proof {
            lemma_find_crlf2_is(v@, v@.len() as int);
        }
        return None;
    }
    let mut i: usize = 0;
    while i <= v.len() - 4
        invariant
            0 <= i <= v@.len(),
            v@.len() >= 4,
            i <= v@.len() - 3,
            forall|j: int| 0 <= j < i ==> !spec_crlf2_at(v@, j),
        decreases v@.len() - i,
    {
        if v[i] == '\r' && v[i + 1] == '\n' && v[i + 2] == '\r' && v[i + 3] == '\n' {
            proof {
                lemma_find_crlf2_is(v@, i as int);
            }
            return Some(i + 4);
        }
        i = i + 1;
    }
    proof {
        assert(forall|j: int| 0 <= j < v@.len() ==> !spec_crlf2_at(v@, j));
        lemma_find_crlf2_is(v@, v@.len() as int);
    }
    None
}

/// The segment before, between and after each separator.
proof fn lemma_split_step(s: Seq<char>, pos: int, k: int)
    requires
        0 <= pos <= k <= s.len(),
        forall|j: int| pos <= j < k ==> s[j] != '/',
        k < s.len() ==> s[k] == '/',
    ensures
        k < s.len() ==> spec_split(s.skip(pos), '/') == seq![s.subrange(pos, k)] + spec_split(
            s.skip(k + 1),
            '/',
        ),
        k == s.len() ==> spec_split(s.skip(pos), '/') == seq![s.skip(pos)],
{
    let u = s.skip(pos);
    assert(forall|j: int| 0 <= j < u.len() ==> u[j] == s[j + pos]);
    lemma_index_of_is(u, '/', k - pos);
    if k < s.len() {
        assert(u.take(k - pos) =~= s.subrange(pos, k));
        assert(u.skip(k - pos + 1) =~= s.skip(k + 1));
    }
}

/// The path split at every `/`, as [`spec_split`] describes it.
#[verifier::loop_isolation(false)]
fn split_slash(v: &[char]) -> (r: Vec<Vec<char>>)
    ensures
        r@.len() == spec_split(v@, '/').len(),
        forall|i: int| 0 <= i < r@.len() ==> (#[trigger] r@[i])@ == spec_split(v@, '/')[i],
{
    let ghost total = spec_split(v@, '/');
    let mut acc: Vec<Vec<char>> = Vec::new();
    let mut pos: usize = 0;
    proof {
        assert(v@.skip(0) =~= v@);
        assert(total.skip(0) =~= total);
    }
    loop
        invariant
            pos <= v@.len(),
            acc@.len() <= total.len(),
            forall|i: int| 0 <= i < acc@.len() ==> (#[trigger] acc@[i])@ == total[i],
            spec_split(v@.skip(pos as int), '/') == total.skip(acc@.len() as int),
        decreases v@.len() - pos,
    {
        let k = find_char_from(v, pos, '/');
        proof {
            lemma_split_step(v@, pos as int, k as int);
        }
        if k == v.len() {
            let ghost n = acc@.len() as int;
            proof {
                assert(v@.subrange(pos as int, k as int) =~= v@.skip(pos as int));
            }
            acc.push(vstd::slice::slice_to_vec(vstd::slice::slice_subrange(v, pos, k)));
            proof {
                assert(total.skip(n) == seq![v@.skip(pos as int)]);
                assert(total.skip(n).len() == 1);
                assert(total.len() == n + 1);
                assert(total.skip(n)[0] == v@.skip(pos as int));
                assert(total.skip(n)[0] == total[0 + n]);
                assert(acc@[n]@ == total[n]);
                assert forall|i: int| 0 <= i < acc@.len() implies (#[trigger] acc@[i])@
                    == total[i] by {
                    if i < n {
                        assert(acc@[i]@ == total[i]);
                    }
                }
            }
            return acc;
        }
        let ghost n = acc@.len() as int;
        proof {
            assert(total.skip(n) == seq![v@.subrange(pos as int, k as int)] + spec_split(
                v@.skip(k + 1),
                '/',
            ));
            assert(total.skip(n).len() >= 1);
            assert(n < total.len());
            assert(total.skip(n)[0] == total[0 + n]);
            assert(total[n] == v@.subrange(pos as int, k as int));
            let rest = spec_split(v@.skip(k + 1), '/');
            assert forall|i: int| 0 <= i < rest.len() implies rest[i] == total.skip(n + 1)[i] by {
                assert((seq![v@.subrange(pos as int, k as int)] + rest)[1 + i] == rest[i]);
                assert(total.skip(n)[1 + i] == total[n + (1 + i)]);
                assert(total.skip(n + 1)[i] == total[(n + 1) + i]);
            }
            assert(rest =~= total.skip(n + 1));
        }
        acc.push(vstd::slice::slice_to_vec(vstd::slice::slice_subrange(v, pos, k)));
        pos = k + 1;
        proof {
            assert(acc@[n]@ == total[n]);
            assert forall|i: int| 0 <= i < acc@.len() implies (#[trigger] acc@[i])@ == total[i] by {
                if i < n {
                    assert(acc@[i]@ == total[i]);
                }
            }
        }
    }
}

/// A plain-text error, as a `String`.
fn plain_string(s: &str) -> (r: String)
    ensures
        r@ == s@,
{
    String::from_str(s)
}

/// The JSON failure body carrying `msg`, as a `String`.
fn fail_body_string(msg: &str) -> (r: String)
    ensures
        r@ == spec_body_fail(msg@),
{
    let mut out: Vec<char> = Vec::new();
    push_str_chars(&mut out, "{\"message\":\"");
    push_str_chars(&mut out, msg);
    push_str_chars(&mut out, "\",\"success\":false}");
    proof {
        assert(out@ =~= spec_body_fail(msg@));
    }
    chars_to_string(&out)
}

/// A `200 OK` response around `body`, as a `String`.
fn ok_response_string(body: &Vec<char>) -> (r: String)
    ensures
        r@ == spec_ok_response(body@),
{
    let mut out: Vec<char> = Vec::new();
    push_str_chars(&mut out, "HTTP/1.1 200 OK\r\n\r\n");
    let mut i: usize = 0;
    while i < body.len()
        invariant
            0 <= i <= body@.len(),
            out@ == "HTTP/1.1 200 OK\r\n\r\n"@ + body@.take(i as int),
        decreases body@.len() - i,
    {
        proof {
            assert(body@.take(i + 1) =~= body@.take(i as int).push(body@[i as int]));
        }
        out.push(body[i]);
        i = i + 1;
    }
    proof {
        assert(body@.take(body@.len() as int) =~= body@);
    }
    chars_to_string(&out)
}

/// The success body that echoes `data`, as characters.
fn success_data_body(data: &Vec<char>) -> (r: Vec<char>)
    ensures
        r@ == spec_body_success_data(data@),
{
    let mut out: Vec<char> = Vec::new();
    push_str_chars(&mut out, "{\"data\":\"");
    push_escaped(&mut out, data.as_slice());
    push_str_chars(&mut out, "\",\"message\":\"Success!\",\"success\":true}");
    proof {
        assert(out@ =~= spec_body_success_data(data@));
    }
    out
}

/// Handles `POST /orders`: decodes the body, adds every listed item to
/// the table in the given order under that table's lock, and echoes the
/// decoded payload. The response is a function of the request text and
/// the store capacity alone.
pub fn handle_post_order(request: &str, restaurant: &Restaurant) -> (r: Result<String, String>)
    requires
        restaurant.wf(),
    ensures
        res_matches(r, spec_post_result(request@, restaurant.spec_num_tables())),
{
    let chars = str_chars(request);
    let v = chars.as_slice();
    let body_start = match find_body_start(v) {
        Some(b) => b,
        None => {
            return Err(plain_string("Invalid request"));
        },
    };
    let body = vstd::slice::slice_subrange(v, body_start, chars.len());
    proof {
        assert(body@ =~= request@.skip(spec_find_crlf2(request@) + 4));
    }
    let payload = match parse_body(body) {
        Some(p) => p,
        None => {
            return Err(
                fail_body_string("Failed to parse order request: malformed order payload"),
            );
        },
    };
    let tp = match restaurant.get_table(payload.table_id) {
        Some(tp) => tp,
        None => {
            return Err(plain_string("Invalid table id"));
        },
    };
    let (mut table, handle) = tp.acquire_write();
    let mut i: usize = 0;
    while i < payload.items.len()
        invariant
            table.wf(),
            table.spec_id() == payload.table_id,
        decreases payload.items@.len() - i,
    {
        table.add_order(payload.items[i]);
        i = i + 1;
    }
    handle.release_write(table);
    let mut data: Vec<char> = Vec::new();
    push_payload_json(&mut data, &payload);
    let body_chars = success_data_body(&data);
    Ok(ok_response_string(&body_chars))
}

/// Handles `DELETE /orders/{table_id}/{item_id}`: removes the order if
/// present. The response is the exact outcome for the table state
/// observed under the lock.
pub fn handle_delete_order(path: &str, restaurant: &Restaurant) -> (r: Result<String, String>)
    requires
        restaurant.wf(),
    ensures
        exists|m: Map<u32, Order>|
            res_matches(
                r,
                spec_delete_result(path@, restaurant.spec_num_tables(), m),
            ),
{
    let ghost nt = restaurant.spec_num_tables();
    let chars = str_chars(path);
    let parts = split_slash(chars.as_slice());
    let ghost any_m = Map::<u32, Order>::empty();
    if parts.len() != 4 {
        let resp = fail_body_string("Invalid path");
        proof {
            assert(res_matches(Err::<String, String>(resp), spec_delete_result(path@, nt, any_m)));
        }
        return Err(resp);
    }
    let tid = match parse_u32(parts[2].as_slice()) {
        Some(t) => t,
        None => {
            let resp = plain_string("Invalid table id");
            proof {
                assert(res_matches(
                    Err::<String, String>(resp),
                    spec_delete_result(path@, nt, any_m),
                ));
            }
            return Err(resp);
        },
    };
    let iid = match parse_u32(parts[3].as_slice()) {
        Some(t) => t,
        None => {
            let resp = plain_string("Invalid item id");
            proof {
                assert(res_matches(
                    Err::<String, String>(resp),
                    spec_delete_result(path@, nt, any_m),
                ));
            }
            return Err(resp);
        },
    };
    let tp = match restaurant.get_table(tid) {
        Some(tp) => tp,
        None => {
            let resp = plain_string("Invalid table id");
            proof {
                assert(res_matches(
                    Err::<String, String>(resp),
                    spec_delete_result(path@, nt, any_m),
                ));
            }
            return Err(resp);
        },
    };
    let (mut table, handle) = tp.acquire_write();
    let ghost m = table@;
    let removed = table.remove_order(iid);
    handle.release_write(table);
    match removed {
        Some(_) => {
            let mut body: Vec<char> = Vec::new();
            push_str_chars(&mut body, "{\"message\":\"Removed ");
            push_dec(&mut body, iid);
            push_str_chars(&mut body, " from table ");
            push_dec(&mut body, tid);
            push_str_chars(&mut body, "\",\"success\":true}");
            proof {
                assert(body@ =~= spec_body_removed(iid, tid));
            }
            let resp = ok_response_string(&body);
            proof {
                assert(res_matches(Ok::<String, String>(resp), spec_delete_result(path@, nt, m)));
            }
            Ok(resp)
        },
        None => {
            let resp = fail_body_string("Order not found");
            proof {
                assert(res_matches(Err::<String, String>(resp), spec_delete_result(path@, nt, m)));
            }
            Err(resp)
        },
    }
}

/// Handles `GET /orders/{table_id}` and
/// `GET /orders/{table_id}/items/{item_id}`: lists a table's orders, or
/// fetches one (a missing item yields a success response carrying
/// `null`, as the wire format has it). The response is the exact
/// outcome for the table listing observed under the lock.
pub fn handle_get_order(path: &str, restaurant: &Restaurant) -> (r: Result<String, String>)
    requires
        restaurant.wf(),
    ensures
        exists|s: Seq<Order>|
            spec_get_witness(path@, s) && res_matches(
                r,
                spec_get_result(path@, restaurant.spec_num_tables(), s),
            ),
{
    let ghost nt = restaurant.spec_num_tables();
    let ghost empty_s = Seq::<Order>::empty();
    let chars = str_chars(path);
    let parts = split_slash(chars.as_slice());
    if parts.len() < 3 {
        let resp = plain_string("Invalid table id");
        proof {
            assert(spec_get_witness(path@, empty_s));
            assert(res_matches(Err::<String, String>(resp), spec_get_result(path@, nt, empty_s)));
        }
        return Err(resp);
    }
    let tid = match parse_u32(parts[2].as_slice()) {
        Some(t) => t,
        None => {
            let resp = plain_string("Invalid table id");
            proof {
                assert(spec_get_witness(path@, empty_s));
                assert(res_matches(
                    Err::<String, String>(resp),
                    spec_get_result(path@, nt, empty_s),
                ));
            }
            return Err(resp);
        },
    };
    let tp = match restaurant.get_table(tid) {
        Some(tp) => tp,
        None => {
            let resp = plain_string("Invalid table id");
            proof {
                assert(spec_get_witness(path@, empty_s));
                assert(res_matches(
                    Err::<String, String>(resp),
                    spec_get_result(path@, nt, empty_s),
                ));
            }
            return Err(resp);
        },
    };
    if parts.len() == 3 {
        let read = tp.acquire_read();
        let table = read.borrow();
        proof {
            table.lemma_orders_wf();
        }
        let ghost s = table.spec_orders();
        let orders = table.get_orders();
        read.release_read();
        let mut data: Vec<char> = Vec::new();
        push_orders_json(&mut data, &orders);
        let body = success_data_body(&data);
        let resp = ok_response_string(&body);
        proof {
            assert(spec_get_witness(path@, s));
            assert(res_matches(Ok::<String, String>(resp), spec_get_result(path@, nt, s)));
        }
        Ok(resp)
    } else if parts.len() == 5 {
        let iid = match parse_u32(parts[4].as_slice()) {
            Some(t) => t,
            None => {
                let resp = plain_string("Invalid item id");
                proof {
                    assert(spec_get_witness(path@, empty_s));
                    assert(res_matches(
                        Err::<String, String>(resp),
                        spec_get_result(path@, nt, empty_s),
                    ));
                }
                return Err(resp);
            },
        };
        let read = tp.acquire_read();
        let table = read.borrow();
        proof {
            table.lemma_orders_wf();
        }
        let ghost s = table.spec_orders();
        let found = match table.get_order(iid) {
            Some(o) => Some(*o),
            None => None,
        };
        read.release_read();
        let mut data: Vec<char> = Vec::new();
        push_opt_order_json(&mut data, found);
        let body = success_data_body(&data);
        let resp = ok_response_string(&body);
        proof {
            assert(spec_get_witness(path@, s));
            assert(res_matches(Ok::<String, String>(resp), spec_get_result(path@, nt, s)));
        }
        Ok(resp)
    } else {
        let resp = plain_string("Invalid path");
        proof {
            assert(spec_get_witness(path@, empty_s));
            assert(res_matches(Err::<String, String>(resp), spec_get_result(path@, nt, empty_s)));
        }
        Err(resp)
    }
}

/// Wraps a handler failure as the transport response.
fn wrap400_string(e: String) -> (r: String)
    ensures
        r@ == "HTTP/1.1 400 Bad Request\r\n\r\n"@ + e@,
{
    let mut out = String::from_str("HTTP/1.1 400 Bad Request\r\n\r\n");
    out.append(e.as_str());
    out
}

/// Routes one request: parses the request line, dispatches on method
/// and path, and maps each handler outcome to its full response text.
/// The only `Err` is the malformed request line; every routed outcome,
/// failures included, comes back as `Ok` with its status line.
pub fn handle_request(request: &str, restaurant: &Restaurant) -> (r: Result<String, String>)
    requires
        restaurant.wf(),
    ensures
        ({
            let toks = spec_ws_tokens(spec_first_line(request@));
            let nt = restaurant.spec_num_tables();
            &&& (toks.len() != 3 ==> (r matches Err(e) && e@ == "Invalid request"@))
            &&& (toks.len() == 3 && toks[0] == "POST"@ && toks[1] == "/orders"@ ==> (
            r matches Ok(resp) && resp@ == spec_wrap400(spec_post_result(request@, nt))))
            &&& (toks.len() == 3 && toks[0] == "DELETE"@ && spec_starts_with(
                toks[1],
                "/orders/"@,
            ) ==> (r matches Ok(resp) && exists|m: Map<u32, Order>|
                resp@ == spec_wrap400(spec_delete_result(toks[1], nt, m))))
            &&& (toks.len() == 3 && toks[0] == "GET"@ && spec_starts_with(toks[1], "/orders/"@)
                ==> (r matches Ok(resp) && spec_get_response_ok(resp@, toks[1], nt)))
            &&& (toks.len() == 3 && !(toks[0] == "POST"@ && toks[1] == "/orders"@) && !(toks[0]
                == "DELETE"@ && spec_starts_with(toks[1], "/orders/"@)) && !(toks[0] == "GET"@
                && spec_starts_with(toks[1], "/orders/"@)) ==> (r matches Ok(resp) && resp@
                == "HTTP/1.1 404 Not Found\r\n\r\nNot Found"@))
        }),
{
    let chars = str_chars(request);
    let v = chars.as_slice();
    let e = find_char_from(v, 0, '\n');
    proof {
        assert(v@.skip(0) =~= v@);
    }
    let line_end = if e > 0 && v[e - 1] == '\r' {
        e - 1
    } else {
        e
    };
    let line = vstd::slice::slice_subrange(v, 0, line_end);
    proof {
        let l = request@.take(spec_index_of(request@, '\n'));
        assert(l =~= v@.subrange(0, e as int));
        if e > 0 && v@[e - 1] == '\r' {
            assert(l.last() == '\r');
            assert(l.drop_last() =~= v@.subrange(0, e - 1));
        } else {
            if l.len() > 0 {
                assert(l.last() == v@[e - 1]);
            }
        }
        assert(line@ == spec_first_line(request@));
    }
    proof {
        reveal_strlit("POST");
        reveal_strlit("DELETE");
        reveal_strlit("GET");
        reveal_strlit("/orders");
        reveal_strlit("/orders/");
    }
    let (method, path_tok) = match request_tokens(line) {
        Some(mp) => mp,
        None => {
            return Err(plain_string("Invalid request"));
        },
    };
    let ghost nt = restaurant.spec_num_tables();
    let ghost toks_g = spec_ws_tokens(spec_first_line(request@));
    proof {
        assert(toks_g.len() == 3);
        assert(method@ == toks_g[0]);
        assert(path_tok@ == toks_g[1]);
    }
    if chars_eq_str(method.as_slice(), "POST") && chars_eq_str(path_tok.as_slice(), "/orders") {
        let inner = handle_post_order(request, restaurant);
        match inner {
            Ok(resp) => {
                proof {
                    assert(resp@ == spec_wrap400(spec_post_result(request@, nt)));
                }
                Ok(resp)
            },
            Err(err) => {
                let w = wrap400_string(err);
                proof {
                    assert(w@ == spec_wrap400(spec_post_result(request@, nt)));
                }
                Ok(w)
            },
        }
    } else if chars_eq_str(method.as_slice(), "DELETE") && chars_start_with_str(
        path_tok.as_slice(),
        "/orders/",
    ) {
        let ps = chars_to_string(&path_tok);
        proof {
            assert(ps@ == toks_g[1]);
        }
        let inner = handle_delete_order(ps.as_str(), restaurant);
        let ghost m = choose|m: Map<u32, Order>|
            res_matches(inner, spec_delete_result(ps@, nt, m));
        match inner {
            Ok(resp) => {
                proof {
                    assert(resp@ == spec_wrap400(spec_delete_result(toks_g[1], nt, m)));
                    assert(exists|m2: Map<u32, Order>|
                        resp@ == spec_wrap400(spec_delete_result(toks_g[1], nt, m2)));
                }
                Ok(resp)
            },
            Err(err) => {
                let w = wrap400_string(err);
                proof {
                    assert(w@ == spec_wrap400(spec_delete_result(toks_g[1], nt, m)));
                    assert(exists|m2: Map<u32, Order>|
                        w@ == spec_wrap400(spec_delete_result(toks_g[1], nt, m2)));
                }
                Ok(w)
            },
        }
    } else if chars_eq_str(method.as_slice(), "GET") && chars_start_with_str(
        path_tok.as_slice(),
        "/orders/",
    ) {
        let ps = chars_to_string(&path_tok);
        proof {
            assert(ps@ == toks_g[1]);
        }
        let inner = handle_get_order(ps.as_str(), restaurant);
        let ghost s = choose|s: Seq<Order>|
            spec_get_witness(ps@, s) && res_matches(inner, spec_get_result(ps@, nt, s));
        match inner {
            Ok(resp) => {
                proof {
                    assert(spec_get_witness(toks_g[1], s) && resp@ == spec_wrap400(
                        spec_get_result(toks_g[1], nt, s),
                    ));
                    assert(spec_get_response_ok(resp@, toks_g[1], nt));
                }
                Ok(resp)
            },
            Err(err) => {
                let w = wrap400_string(err);
                proof {
                    assert(spec_get_witness(toks_g[1], s) && w@ == spec_wrap400(
                        spec_get_result(toks_g[1], nt, s),
                    ));
                    assert(spec_get_response_ok(w@, toks_g[1], nt));
                }
                Ok(w)
            },
        }
    } else {
        proof {
            assert(!(toks_g[0] == "POST"@ && toks_g[1] == "/orders"@));
            assert(!(toks_g[0] == "DELETE"@ && spec_starts_with(toks_g[1], "/orders/"@)));
            assert(!(toks_g[0] == "GET"@ && spec_starts_with(toks_g[1], "/orders/"@)));
        }
        Ok(plain_string("HTTP/1.1 404 Not Found\r\n\r\nNot Found"))
    }
}

} // verus!

//! The wire payloads this service reads and writes: the posted order
//! request `{"table_id": .., "items": [..]}` and the JSON bodies of the
//! responses. Both directions are specified character by character.

use vstd::prelude::*;

use crate::order::Order;
use crate::text::digits_val;
use crate::text::is_digit;
use crate::text::push_dec;
use crate::text::push_str_chars;
use crate::text::lemma_dec_digits;
use crate::text::spec_dec;
use crate::text::spec_digits_end;
use crate::text::lemma_digits_end_is;
use crate::text::parse_u32;

verus! {

/// A decoded POST body: the table and the item ids to add, in order.
pub struct AddOrderRequest {
    pub table_id: u32,
    pub items: Vec<u32>,
}

/// JSON insignificant whitespace.
pub open spec fn is_json_ws(c: char) -> bool {
    c as u32 == 32 || c as u32 == 9 || c as u32 == 10 || c as u32 == 13
}

/// End of the whitespace run starting at `from`.
pub open spec fn spec_ws_end(s: Seq<char>, from: int) -> int
    decreases s.len() - from,
{
    if 0 <= from < s.len() && is_json_ws(s[from]) {
        spec_ws_end(s, from + 1)
    } else {
        from
    }
}

pub proof fn lemma_ws_end(s: Seq<char>, from: int)
    requires
        0 <= from <= s.len(),
    ensures
        from <= spec_ws_end(s, from) <= s.len(),
        spec_ws_end(s, from) < s.len() ==> !is_json_ws(s[spec_ws_end(s, from)]),
    decreases s.len() - from,
{
    if 0 <= from < s.len() && is_json_ws(s[from]) {
        lemma_ws_end(s, from + 1);
    }
}

pub proof fn lemma_ws_end_is(s: Seq<char>, from: int, i: int)
    requires
        0 <= from <= i <= s.len(),
        forall|j: int| from <= j < i ==> is_json_ws(s[j]),
        i < s.len() ==> !is_json_ws(s[i]),
    ensures
        spec_ws_end(s, from) == i,
    decreases s.len() - from,
{
    if 0 <= from < s.len() && is_json_ws(s[from]) {
        lemma_ws_end_is(s, from + 1, i);
    }
}

/// The characters `"table_id"` (quotes included) stand at `i`.
pub open spec fn key_table_id_at(s: Seq<char>, i: int) -> bool {
    &&& i + 10 <= s.len()
    &&& s[i] == '"'
    &&& s[i + 1] == 't'
    &&& s[i + 2] == 'a'
    &&& s[i + 3] == 'b'
    &&& s[i + 4] == 'l'
    &&& s[i + 5] == 'e'
    &&& s[i + 6] == '_'
    &&& s[i + 7] == 'i'
    &&& s[i + 8] == 'd'
    &&& s[i + 9] == '"'
}

/// The characters `"items"` (quotes included) stand at `i`.
pub open spec fn key_items_at(s: Seq<char>, i: int) -> bool {
    &&& i + 7 <= s.len()
    &&& s[i] == '"'
    &&& s[i + 1] == 'i'
    &&& s[i + 2] == 't'
    &&& s[i + 3] == 'e'
    &&& s[i + 4] == 'm'
    &&& s[i + 5] == 's'
    &&& s[i + 6] == '"'
}

/// A decimal number at `i`: `Some((value, end))` when a digit run in
/// `u32` range starts exactly at `i`.
pub open spec fn spec_num_at(s: Seq<char>, i: int) -> Option<(u32, int)> {
    let j = spec_digits_end(s, i);
    if j <= i {
        None
    } else if digits_val(s.subrange(i, j)) <= u32::MAX {
        Some((digits_val(s.subrange(i, j)) as u32, j))
    } else {
        None
    }
}

/// The item list continuing after the first number: a possibly empty
/// run of `, number` groups closed by `]`.
pub open spec fn spec_items_rest(s: Seq<char>, i: int, acc: Seq<u32>) -> Option<(Seq<u32>, int)>
    decreases s.len() - i,
{
    let k = spec_ws_end(s, i);
    if k < s.len() && s[k] == ']' {
        Some((acc, k + 1))
    } else if k < s.len() && s[k] == ',' {
        let m = spec_ws_end(s, k + 1);
        match spec_num_at(s, m) {
            Some((n, j)) => {
                if i < j <= s.len() {
                    spec_items_rest(s, j, acc.push(n))
                } else {
                    None
                }
            },
            None => None,
        }
    } else {
        None
    }
}

/// A bracketed list of decimal numbers at `i`.
pub open spec fn spec_items_at(s: Seq<char>, i: int) -> Option<(Seq<u32>, int)> {
    if i < s.len() && s[i] == '[' {
        let k = spec_ws_end(s, i + 1);
        if k < s.len() && s[k] == ']' {
            Some((Seq::empty(), k + 1))
        } else {
            match spec_num_at(s, k) {
                Some((n, j)) => spec_items_rest(s, j, seq![n]),
                None => None,
            }
        }
    } else {
        None
    }
}

/// A colon surrounded by optional whitespace, starting at `i`.
pub open spec fn spec_colon_at(s: Seq<char>, i: int) -> Option<int> {
    let k = spec_ws_end(s, i);
    if k < s.len() && s[k] == ':' {
        Some(spec_ws_end(s, k + 1))
    } else {
        None
    }
}

/// The `"table_id": n` field at `i`; yields the value and the index
/// after it.
pub open spec fn spec_field_table_id_at(s: Seq<char>, i: int) -> Option<(u32, int)> {
    if key_table_id_at(s, i) {
        match spec_colon_at(s, i + 10) {
            Some(m) => spec_num_at(s, m),
            None => None,
        }
    } else {
        None
    }
}

/// The `"items": [..]` field at `i`; yields the list and the index
/// after it.
pub open spec fn spec_field_items_at(s: Seq<char>, i: int) -> Option<(Seq<u32>, int)> {
    if key_items_at(s, i) {
        match spec_colon_at(s, i + 7) {
            Some(m) => spec_items_at(s, m),
            None => None,
        }
    } else {
        None
    }
}

/// A whole POST body: an object holding exactly a `table_id` field and
/// an `items` field, in either order, and nothing else.
pub open spec fn spec_parse_body(s: Seq<char>) -> Option<(u32, Seq<u32>)> {
    let i = spec_ws_end(s, 0);
    if i < s.len() && s[i] == '{' {
        let k = spec_ws_end(s, i + 1);
        if key_table_id_at(s, k) {
            match spec_field_table_id_at(s, k) {
                Some((tid, a)) => {
                    let b = spec_ws_end(s, a);
                    if b < s.len() && s[b] == ',' {
                        let c = spec_ws_end(s, b + 1);
                        match spec_field_items_at(s, c) {
                            Some((items, d)) => spec_body_close(s, d, tid, items),
                            None => None,
                        }
                    } else {
                        None
                    }
                },
                None => None,
            }
        } else if key_items_at(s, k) {
            match spec_field_items_at(s, k) {
                Some((items, a)) => {
                    let b = spec_ws_end(s, a);
                    if b < s.len() && s[b] == ',' {
                        let c = spec_ws_end(s, b + 1);
                        match spec_field_table_id_at(s, c) {
                            Some((tid, d)) => spec_body_close(s, d, tid, items),
                            None => None,
                        }
                    } else {
                        None
                    }
                },
                None => None,
            }
        } else {
            None
        }
    } else {
        None
    }
}

/// The closing brace and trailing whitespace after the two fields.
pub open spec fn spec_body_close(s: Seq<char>, i: int, tid: u32, items: Seq<u32>) -> Option<
    (u32, Seq<u32>),
> {
    let k = spec_ws_end(s, i);
    if k < s.len() && s[k] == '}' && spec_ws_end(s, k + 1) == s.len() {
        Some((tid, items))
    } else {
        None
    }
}

/// End of the whitespace run starting at `from`, executably.
pub fn ws_end_at(v: &[char], from: usize) -> (r: usize)
    requires
        from <= v@.len(),
    ensures
        r == spec_ws_end(v@, from as int),
        from <= r <= v@.len(),
{
    let mut i: usize = from;
    while i < v.len()
        invariant
            from <= i <= v@.len(),
            forall|j: int| from <= j < i ==> is_json_ws(v@[j]),
        decreases v@.len() - i,
    {
        let c = v[i] as u32;
        if !(c == 32 || c == 9 || c == 10 || c == 13) {
            proof {
                lemma_ws_end_is(v@, from as int, i as int);
            }
            return i;
        }
        i = i + 1;
    }
    proof {
        lemma_ws_end_is(v@, from as int, v@.len() as int);
    }
    v.len()
}

/// Is `c` an ASCII decimal digit, executably?
fn is_digit_char(c: char) -> (r: bool)
    ensures
        r == is_digit(c),
{
    let u = c as u32;
    48 <= u && u <= 57
}

/// A decimal number at `from`, executably.
fn num_at(v: &[char], from: usize) -> (r: Option<(u32, usize)>)
    requires
        from <= v@.len(),
    ensures
        match r {
            Some((n, j)) => spec_num_at(v@, from as int) == Some((n, j as int)) && from < j
                <= v@.len(),
            None => spec_num_at(v@, from as int) is None,
        },
{
    let mut j: usize = from;
    while j < v.len() && is_digit_char(v[j])
        invariant
            from <= j <= v@.len(),
            forall|k: int| from <= k < j ==> is_digit(#[trigger] v@[k]),
        decreases v@.len() - j,
    {
        j = j + 1;
    }
    proof {
        lemma_digits_end_is(v@, from as int, j as int);
    }
    if j == from {
        return None;
    }
    let digits = vstd::slice::slice_subrange(v, from, j);
    let parsed = parse_u32(digits);
    proof {
        assert(digits@ == v@.subrange(from as int, j as int));
        assert(digits@.len() > 0);
    }
    match parsed {
        Some(n) => Some((n, j)),
        None => {
            proof {
                assert(forall|k: int|
                    0 <= k < digits@.len() ==> is_digit(#[trigger] digits@[k]));
                assert(digits_val(digits@) > u32::MAX);
            }
            None
        },
    }
}

/// Does `"table_id"` stand at `i`, executably?
fn match_key_table_id(v: &[char], i: usize) -> (r: bool)
    requires
        i <= v@.len(),
    ensures
        r == key_table_id_at(v@, i as int),
{
    v.len() - i >= 10 && v[i] == '"' && v[i + 1] == 't' && v[i + 2] == 'a' && v[i + 3] == 'b'
        && v[i + 4] == 'l' && v[i + 5] == 'e' && v[i + 6] == '_' && v[i + 7] == 'i' && v[i + 8]
        == 'd' && v[i + 9] == '"'
}

/// Does `"items"` stand at `i`, executably?
fn match_key_items(v: &[char], i: usize) -> (r: bool)
    requires
        i <= v@.len(),
    ensures
        r == key_items_at(v@, i as int),
{
    v.len() - i >= 7 && v[i] == '"' && v[i + 1] == 'i' && v[i + 2] == 't' && v[i + 3] == 'e'
        && v[i + 4] == 'm' && v[i + 5] == 's' && v[i + 6] == '"'
}

/// A colon surrounded by optional whitespace, executably.
fn colon_at(v: &[char], i: usize) -> (r: Option<usize>)
    requires
        i <= v@.len(),
    ensures
        match r {
            Some(m) => spec_colon_at(v@, i as int) == Some(m as int) && m <= v@.len(),
            None => spec_colon_at(v@, i as int) is None,
        },
{
    let k = ws_end_at(v, i);
    if k < v.len() && v[k] == ':' {
        Some(ws_end_at(v, k + 1))
    } else {
        None
    }
}

/// The bracketed item list at `i`, executably.
fn items_at(v: &[char], i: usize) -> (r: Option<(Vec<u32>, usize)>)
    requires
        i <= v@.len(),
    ensures
        match r {
            Some((items, j)) => spec_items_at(v@, i as int) == Some((items@, j as int)) && j
                <= v@.len(),
            None => spec_items_at(v@, i as int) is None,
        },
{
    if !(i < v.len() && v[i] == '[') {
        return None;
    }
    let k = ws_end_at(v, i + 1);
    if k < v.len() && v[k] == ']' {
        let empty: Vec<u32> = Vec::new();
        proof {
            assert(empty@ =~= Seq::<u32>::empty());
        }
        return Some((empty, k + 1));
    }
    let first = match num_at(v, k) {
        Some(p) => p,
        None => {
            return None;
        },
    };
    let mut acc: Vec<u32> = Vec::new();
    acc.push(first.0);
    let mut cur: usize = first.1;
    proof {
        assert(acc@ =~= seq![first.0]);
    }
    loop
        invariant
            cur <= v@.len(),
            spec_items_at(v@, i as int) == spec_items_rest(v@, cur as int, acc@),
        decreases v@.len() - cur,
    {
        let k2 = ws_end_at(v, cur);
        if k2 < v.len() && v[k2] == ']' {
            return Some((acc, k2 + 1));
        }
        if !(k2 < v.len() && v[k2] == ',') {
            return None;
        }
        let m = ws_end_at(v, k2 + 1);
        match num_at(v, m) {
            Some((n, j)) => {
                proof {
                    lemma_ws_end(v@, cur as int);
                }
                acc.push(n);
                cur = j;
            },
            None => {
                return None;
            },
        }
    }
}

/// The whole POST body, executably: exactly what [`spec_parse_body`]
/// accepts.
pub fn parse_body(v: &[char]) -> (r: Option<AddOrderRequest>)
    ensures
        match r {
            Some(p) => spec_parse_body(v@) == Some((p.table_id, p.items@)),
            None => spec_parse_body(v@) is None,
        },
{
    let i = ws_end_at(v, 0);
    if !(i < v.len() && v[i] == '{') {
        return None;
    }
    let k = ws_end_at(v, i + 1);
    if match_key_table_id(v, k) {
        let (tid, a) = match field_table_id_at(v, k) {
            Some(p) => p,
            None => {
                return None;
            },
        };
        let b = ws_end_at(v, a);
        if !(b < v.len() && v[b] == ',') {
            return None;
        }
        let c = ws_end_at(v, b + 1);
        let (items, d) = match field_items_at(v, c) {
            Some(p) => p,
            None => {
                return None;
            },
        };
        if body_close_at(v, d) {
            Some(AddOrderRequest { table_id: tid, items })
        } else {
            None
        }
    } else if match_key_items(v, k) {
        let (items, a) = match field_items_at(v, k) {
            Some(p) => p,
            None => {
                return None;
            },
        };
        let b = ws_end_at(v, a);
        if !(b < v.len() && v[b] == ',') {
            return None;
        }
        let c = ws_end_at(v, b + 1);
        let (tid, d) = match field_table_id_at(v, c) {
            Some(p) => p,
            None => {
                return None;
            },
        };
        if body_close_at(v, d) {
            Some(AddOrderRequest { table_id: tid, items })
        } else {
            None
        }
    } else {
        None
    }
}

/// The `"table_id": n` field at `i`, executably.
fn field_table_id_at(v: &[char], i: usize) -> (r: Option<(u32, usize)>)
    requires
        i <= v@.len(),
    ensures
        match r {
            Some((n, j)) => spec_field_table_id_at(v@, i as int) == Some((n, j as int)) && j
                <= v@.len(),
            None => spec_field_table_id_at(v@, i as int) is None,
        },
{
    if !match_key_table_id(v, i) {
        return None;
    }
    let n = v.len();
    proof {
        assert(i + 10 <= n);
    }
    match colon_at(v, i + 10) {
        Some(m) => num_at(v, m),
        None => None,
    }
}

/// The `"items": [..]` field at `i`, executably.
fn field_items_at(v: &[char], i: usize) -> (r: Option<(Vec<u32>, usize)>)
    requires
        i <= v@.len(),
    ensures
        match r {
            Some((items, j)) => spec_field_items_at(v@, i as int) == Some((items@, j as int))
                && j <= v@.len(),
            None => spec_field_items_at(v@, i as int) is None,
        },
{
    if !match_key_items(v, i) {
        return None;
    }
    let n = v.len();
    proof {
        assert(i + 7 <= n);
    }
    match colon_at(v, i + 7) {
        Some(m) => items_at(v, m),
        None => None,
    }
}

/// One character, escaped as it appears inside a JSON string literal.
pub open spec fn esc1(c: char) -> Seq<char> {
    if c == '"' || c == '\\' {
        seq!['\\', c]
    } else {
        seq![c]
    }
}

/// A character sequence, escaped for embedding in a JSON string
/// literal.
pub open spec fn spec_escape(s: Seq<char>) -> Seq<char>
    decreases s.len(),
{
    if s.len() == 0 {
        Seq::empty()
    } else {
        spec_escape(s.drop_last()) + esc1(s.last())
    }
}

/// `{"table_id":`, spelled out.
pub open spec fn lit_payload_open() -> Seq<char> {
    seq!['{', '"', 't', 'a', 'b', 'l', 'e', '_', 'i', 'd', '"', ':']
}

/// `,"items":[`, spelled out.
pub open spec fn lit_payload_mid() -> Seq<char> {
    seq![',', '"', 'i', 't', 'e', 'm', 's', '"', ':', '[']
}

/// `]}`, spelled out.
pub open spec fn lit_payload_close() -> Seq<char> {
    seq![']', '}']
}

/// The item ids, comma separated, in the given order.
pub open spec fn spec_items_json(items: Seq<u32>) -> Seq<char>
    decreases items.len(),
{
    if items.len() == 0 {
        Seq::empty()
    } else if items.len() == 1 {
        spec_dec(items[0] as nat)
    } else {
        spec_items_json(items.drop_last()) + seq![','] + spec_dec(items.last() as nat)
    }
}

/// The canonical rendering of a posted payload, as it is echoed back:
/// `{"table_id":N,"items":[..]}` with no whitespace.
pub open spec fn spec_payload_json(table_id: u32, items: Seq<u32>) -> Seq<char> {
    lit_payload_open() + spec_dec(table_id as nat) + lit_payload_mid() + spec_items_json(items)
        + lit_payload_close()
}

/// One order as JSON, fields in declaration order.
pub open spec fn spec_order_json(o: Order) -> Seq<char> {
    "{\"item_id\":"@ + spec_dec(o.item_id as nat) + ",\"table_id\":"@ + spec_dec(
        o.table_id as nat,
    ) + ",\"waiting_time\":"@ + spec_dec(o.waiting_time as nat) + "}"@
}

/// The orders, comma separated, in the given sequence order.
pub open spec fn spec_orders_inner(s: Seq<Order>) -> Seq<char>
    decreases s.len(),
{
    if s.len() == 0 {
        Seq::empty()
    } else if s.len() == 1 {
        spec_order_json(s[0])
    } else {
        spec_orders_inner(s.drop_last()) + seq![','] + spec_order_json(s.last())
    }
}

/// A JSON array of orders.
pub open spec fn spec_orders_json(s: Seq<Order>) -> Seq<char> {
    seq!['['] + spec_orders_inner(s) + seq![']']
}

/// An optional order: the order itself, or JSON `null`.
pub open spec fn spec_opt_order_json(o: Option<Order>) -> Seq<char> {
    match o {
        Some(v) => spec_order_json(v),
        None => "null"@,
    }
}

pub proof fn lemma_lit_payload_open()
    ensures
        "{\"table_id\":"@ == lit_payload_open(),
{
    reveal_strlit("{\"table_id\":");
    assert("{\"table_id\":"@ =~= lit_payload_open());
}

pub proof fn lemma_lit_payload_mid()
    ensures
        ",\"items\":["@ == lit_payload_mid(),
{
    reveal_strlit(",\"items\":[");
    assert(",\"items\":["@ =~= lit_payload_mid());
}

pub proof fn lemma_lit_payload_close()
    ensures
        "]}"@ == lit_payload_close(),
{
    reveal_strlit("]}");
    assert("]}"@ =~= lit_payload_close());
}

/// The item ids rendered as `,N` groups, reading left to right: the
/// form in which the parser meets them after the first number.
pub open spec fn spec_items_sep_json(items: Seq<u32>) -> Seq<char>
    decreases items.len(),
{
    if items.len() == 0 {
        Seq::empty()
    } else {
        seq![','] + spec_dec(items[0] as nat) + spec_items_sep_json(items.skip(1))
    }
}

proof fn lemma_items_sep_push(s: Seq<u32>, x: u32)
    ensures
        spec_items_sep_json(s.push(x)) == spec_items_sep_json(s) + seq![','] + spec_dec(
            x as nat,
        ),
    decreases s.len(),
{
    if s.len() == 0 {
        reveal_with_fuel(spec_items_sep_json, 3);
        assert(s.push(x)[0] == x);
        assert(s.push(x).skip(1) =~= Seq::<u32>::empty());
        assert(spec_items_sep_json(s.push(x)) =~= spec_items_sep_json(s) + seq![','] + spec_dec(
            x as nat,
        ));
    } else {
        assert(s.push(x)[0] == s[0]);
        assert(s.push(x).skip(1) =~= s.skip(1).push(x));
        lemma_items_sep_push(s.skip(1), x);
        assert(spec_items_sep_json(s.push(x)) == seq![','] + spec_dec(s.push(x)[0] as nat)
            + spec_items_sep_json(s.push(x).skip(1)));
        assert(spec_items_sep_json(s) == seq![','] + spec_dec(s[0] as nat)
            + spec_items_sep_json(s.skip(1)));
        assert(spec_items_sep_json(s.push(x)) =~= spec_items_sep_json(s) + seq![','] + spec_dec(
            x as nat,
        ));
    }
}

/// The right-recursive rendering agrees with the left-to-right one.
proof fn lemma_items_json_left(items: Seq<u32>)
    requires
        items.len() > 0,
    ensures
        spec_items_json(items) == spec_dec(items[0] as nat) + spec_items_sep_json(
            items.skip(1),
        ),
    decreases items.len(),
{
    if items.len() == 1 {
        assert(items.skip(1) =~= Seq::<u32>::empty());
        assert(spec_items_json(items) =~= spec_dec(items[0] as nat) + spec_items_sep_json(
            items.skip(1),
        ));
    } else {
        lemma_items_json_left(items.drop_last());
        assert(items.drop_last()[0] == items[0]);
        assert(items.skip(1) =~= items.drop_last().skip(1).push(items.last()));
        lemma_items_sep_push(items.drop_last().skip(1), items.last());
        assert(spec_items_json(items) =~= spec_dec(items[0] as nat) + spec_items_sep_json(
            items.skip(1),
        ));
    }
}

/// After the first number, the parser consumes `,N` groups and the
/// closing bracket exactly as the renderer laid them down.
proof fn lemma_items_rest_round_trip(e: Seq<char>, i: int, acc: Seq<u32>, rest: Seq<u32>)
    requires
        0 <= i,
        i + spec_items_sep_json(rest).len() + 1 <= e.len(),
        e.subrange(i, i + spec_items_sep_json(rest).len() + 1) == spec_items_sep_json(rest)
            + seq![']'],
    ensures
        spec_items_rest(e, i, acc) == Some(
            (acc + rest, i + spec_items_sep_json(rest).len() + 1),
        ),
    decreases rest.len(),
{
    let sep = spec_items_sep_json(rest);
    let sub = e.subrange(i, i + sep.len() + 1);
    if rest.len() == 0 {
        assert(sub[0] == ']');
        assert(e[i] == ']');
        lemma_ws_end_is(e, i, i);
        assert(acc + rest =~= acc);
    } else {
        let x = rest[0];
        let rest2 = rest.skip(1);
        let dx = spec_dec(x as nat);
        let sep2 = spec_items_sep_json(rest2);
        assert(sep == seq![','] + dx + sep2);
        lemma_dec_digits(x as nat);
        assert(sub[0] == ',');
        assert(e[i] == ',');
        lemma_ws_end_is(e, i, i);
        assert forall|t: int| 0 <= t < dx.len() implies e[i + 1 + t] == dx[t] by {
            assert(sub[1 + t] == (seq![','] + dx + sep2)[1 + t]);
            assert((seq![','] + dx + sep2)[1 + t] == dx[t]);
        }
        assert(e[i + 1 + 0] == dx[0]);
        assert(is_digit(dx[0]));
        assert(is_digit(e[i + 1]));
        lemma_ws_end_is(e, i + 1, i + 1);
        let j = i + 1 + dx.len();
        assert forall|q: int| i + 1 <= q < j implies is_digit(#[trigger] e[q]) by {
            assert(e[i + 1 + (q - i - 1)] == dx[q - i - 1]);
            assert(is_digit(dx[q - i - 1]));
        }
        assert(sub[1 + dx.len() as int] == (if rest2.len() == 0 {
            ']'
        } else {
            ','
        }));
        assert(!is_digit(e[j]));
        lemma_digits_end_is(e, i + 1, j);
        assert(e.subrange(i + 1, j) =~= dx);
        assert(digits_val(e.subrange(i + 1, j)) == x as nat);
        assert(spec_num_at(e, i + 1) == Some((x, j)));
        assert forall|t: int| 0 <= t < sep2.len() + 1 implies e.subrange(
            j,
            j + sep2.len() + 1,
        )[t] == (sep2 + seq![']'])[t] by {
            assert(e[j + t] == sub[1 + dx.len() + t]);
            assert(sub[1 + dx.len() + t] == (seq![','] + dx + sep2 + seq![']'])[1 + dx.len()
                + t]);
        }
        assert(e.subrange(j, j + sep2.len() + 1) =~= sep2 + seq![']']);
        lemma_items_rest_round_trip(e, j, acc.push(x), rest2);
        assert(acc.push(x) + rest2 =~= acc + rest);
    }
}

/// Round trip: the canonical rendering of any payload is accepted by
/// the body parser and decodes to exactly the same payload, field for
/// field.
#[verifier::rlimit(100)]
pub proof fn lemma_payload_round_trip(table_id: u32, items: Seq<u32>)
    ensures
        spec_parse_body(spec_payload_json(table_id, items)) == Some((table_id, items)),
{
    let op = lit_payload_open();
    let d1 = spec_dec(table_id as nat);
    let mid = lit_payload_mid();
    let ij = spec_items_json(items);
    let cl = lit_payload_close();
    let s1 = op + d1;
    let s2 = s1 + mid;
    let s3 = s2 + ij;
    let e = spec_payload_json(table_id, items);
    assert(e == s3 + cl);
    lemma_dec_digits(table_id as nat);
    let n = e.len() as int;
    let a = 12 + d1.len() as int;
    assert forall|t: int| 0 <= t < 12 implies e[t] == op[t] by {
        assert(e[t] == s3[t]);
        assert(s3[t] == s2[t]);
        assert(s2[t] == s1[t]);
        assert(s1[t] == op[t]);
    }
    assert forall|t: int| 0 <= t < d1.len() implies e[12 + t] == d1[t] by {
        assert(e[12 + t] == s3[12 + t]);
        assert(s3[12 + t] == s2[12 + t]);
        assert(s2[12 + t] == s1[12 + t]);
        assert(s1[12 + t] == d1[t]);
    }
    assert forall|t: int| 0 <= t < 10 implies e[a + t] == mid[t] by {
        assert(e[a + t] == s3[a + t]);
        assert(s3[a + t] == s2[a + t]);
        assert(s2[a + t] == mid[t]);
    }
    assert forall|t: int| 0 <= t < ij.len() implies e[a + 10 + t] == ij[t] by {
        assert(e[a + 10 + t] == s3[a + 10 + t]);
        assert(s3[a + 10 + t] == ij[t]);
    }
    assert(e[n - 2] == ']' && e[n - 1] == '}') by {
        assert(e[s3.len() as int] == cl[0]);
        assert(e[s3.len() as int + 1] == cl[1]);
    }
    // The object opening and the table_id field.
    lemma_ws_end_is(e, 0, 0);
    assert(e[0] == '{');
    lemma_ws_end_is(e, 1, 1);
    assert(key_table_id_at(e, 1));
    lemma_ws_end_is(e, 11, 11);
    assert(e[11] == ':');
    assert(e[12 + 0int] == d1[0]);
    assert(is_digit(d1[0]));
    assert(is_digit(e[12]));
    lemma_ws_end_is(e, 12, 12);
    assert(spec_colon_at(e, 11) == Some(12int));
    assert(e[a + 0] == mid[0]);
    assert(e[a] == ',');
    assert forall|q: int| 12 <= q < a implies is_digit(#[trigger] e[q]) by {
        assert(e[12 + (q - 12)] == d1[q - 12]);
        assert(is_digit(d1[q - 12]));
    }
    lemma_digits_end_is(e, 12, a);
    assert(e.subrange(12, a) =~= d1);
    assert(spec_num_at(e, 12) == Some((table_id, a)));
    assert(spec_field_table_id_at(e, 1) == Some((table_id, a)));
    // The comma and the items field.
    lemma_ws_end_is(e, a, a);
    lemma_ws_end_is(e, a + 1, a + 1);
    assert(key_items_at(e, a + 1));
    lemma_ws_end_is(e, a + 8, a + 8);
    assert(e[a + 8] == ':');
    lemma_ws_end_is(e, a + 9, a + 9);
    assert(spec_colon_at(e, a + 8) == Some(a + 9));
    assert(e[a + 9] == '[');
    if items.len() == 0 {
        assert(ij.len() == 0);
        assert(e[a + 10] == ']');
        lemma_ws_end_is(e, a + 10, a + 10);
        assert(spec_items_at(e, a + 9) == Some((Seq::<u32>::empty(), a + 11)));
        assert(Seq::<u32>::empty() =~= items);
        lemma_ws_end_is(e, a + 11, a + 11);
        assert(e[a + 11] == '}');
        lemma_ws_end_is(e, n, n);
        assert(spec_body_close(e, a + 11, table_id, items) == Some((table_id, items)));
    } else {
        lemma_items_json_left(items);
        let d0 = spec_dec(items[0] as nat);
        let sep = spec_items_sep_json(items.skip(1));
        assert(ij == d0 + sep);
        lemma_dec_digits(items[0] as nat);
        assert forall|t: int| 0 <= t < d0.len() implies e[a + 10 + t] == d0[t] by {
            assert(ij[t] == d0[t]);
        }
        assert(e[a + 10 + 0] == d0[0]);
        assert(is_digit(d0[0]));
        assert(is_digit(e[a + 10]));
        lemma_ws_end_is(e, a + 10, a + 10);
        let j0 = a + 10 + d0.len() as int;
        assert forall|q: int| a + 10 <= q < j0 implies is_digit(#[trigger] e[q]) by {
            assert(e[a + 10 + (q - a - 10)] == ij[q - a - 10]);
            assert(ij[q - a - 10] == d0[q - a - 10]);
            assert(is_digit(d0[q - a - 10]));
        }
        assert(e[j0] == (if items.len() == 1 {
            ']'
        } else {
            ','
        })) by {
            if items.len() == 1 {
                assert(sep.len() == 0);
                assert(j0 == n - 2);
            } else {
                assert(items.skip(1).len() > 0);
                assert(sep[0] == ',');
                assert(ij[d0.len() as int] == sep[0]);
            }
        }
        assert(!is_digit(e[j0]));
        lemma_digits_end_is(e, a + 10, j0);
        assert(e.subrange(a + 10, j0) =~= d0);
        assert(spec_num_at(e, a + 10) == Some((items[0], j0)));
        assert forall|t: int| 0 <= t < sep.len() + 1 implies e.subrange(
            j0,
            j0 + sep.len() + 1,
        )[t] == (sep + seq![']'])[t] by {
            if t < sep.len() {
                assert(e[j0 + t] == ij[d0.len() + t]);
                assert(ij[d0.len() + t] == sep[t]);
            } else {
                assert(j0 + t == n - 2);
            }
        }
        assert(e.subrange(j0, j0 + sep.len() + 1) =~= sep + seq![']']);
        lemma_items_rest_round_trip(e, j0, seq![items[0]], items.skip(1));
        assert(seq![items[0]] + items.skip(1) =~= items);
        let d = j0 + sep.len() + 1;
        assert(d == n - 1);
        assert(spec_items_at(e, a + 9) == Some((items, d)));
        lemma_ws_end_is(e, n - 1, n - 1);
        assert(e[n - 1] == '}');
        lemma_ws_end_is(e, n, n);
        assert(spec_body_close(e, n - 1, table_id, items) == Some((table_id, items)));
    }
}

/// Appends `v` with JSON string escaping applied.
pub fn push_escaped(out: &mut Vec<char>, v: &[char])
    ensures
        final(out)@ == old(out)@ + spec_escape(v@),
{
    let mut i: usize = 0;
    while i < v.len()
        invariant
            0 <= i <= v@.len(),
            out@ == old(out)@ + spec_escape(v@.take(i as int)),
        decreases v@.len() - i,
    {
        proof {
            assert(v@.take(i + 1).drop_last() =~= v@.take(i as int));
            assert(v@.take(i + 1).last() == v@[i as int]);
        }
        let c = v[i];
        if c == '"' || c == '\\' {
            out.push('\\');
            out.push(c);
        } else {
            out.push(c);
        }
        i = i + 1;
    }
    proof {
        assert(v@.take(v@.len() as int) =~= v@);
    }
}

/// Appends the canonical payload rendering.
pub fn push_payload_json(out: &mut Vec<char>, p: &AddOrderRequest)
    ensures
        final(out)@ == old(out)@ + spec_payload_json(p.table_id, p.items@),
{
    proof {
        lemma_lit_payload_open();
        lemma_lit_payload_mid();
        lemma_lit_payload_close();
    }
    push_str_chars(out, "{\"table_id\":");
    push_dec(out, p.table_id);
    push_str_chars(out, ",\"items\":[");
    let ghost mid = out@;
    let mut i: usize = 0;
    while i < p.items.len()
        invariant
            0 <= i <= p.items@.len(),
            out@ == mid + spec_items_json(p.items@.take(i as int)),
        decreases p.items@.len() - i,
    {
        proof {
            assert(p.items@.take(i + 1).drop_last() =~= p.items@.take(i as int));
            assert(p.items@.take(i + 1).last() == p.items@[i as int]);
        }
        if i > 0 {
            out.push(',');
        }
        push_dec(out, p.items[i]);
        i = i + 1;
    }
    proof {
        assert(p.items@.take(p.items@.len() as int) =~= p.items@);
    }
    push_str_chars(out, "]}");
    proof {
        assert(out@ =~= old(out)@ + spec_payload_json(p.table_id, p.items@));
    }
}

/// Appends one order as JSON.
pub fn push_order_json(out: &mut Vec<char>, o: &Order)
    ensures
        final(out)@ == old(out)@ + spec_order_json(*o),
{
    push_str_chars(out, "{\"item_id\":");
    push_dec(out, o.item_id);
    push_str_chars(out, ",\"table_id\":");
    push_dec(out, o.table_id);
    push_str_chars(out, ",\"waiting_time\":");
    push_dec(out, o.waiting_time);
    push_str_chars(out, "}");
    proof {
        assert(out@ =~= old(out)@ + spec_order_json(*o));
    }
}

/// Appends a JSON array of orders, in the vector's order.
pub fn push_orders_json(out: &mut Vec<char>, s: &Vec<Order>)
    ensures
        final(out)@ == old(out)@ + spec_orders_json(s@),
{
    out.push('[');
    let ghost mid = out@;
    let mut i: usize = 0;
    while i < s.len()
        invariant
            0 <= i <= s@.len(),
            out@ == mid + spec_orders_inner(s@.take(i as int)),
        decreases s@.len() - i,
    {
        proof {
            assert(s@.take(i + 1).drop_last() =~= s@.take(i as int));
            assert(s@.take(i + 1).last() == s@[i as int]);
        }
        if i > 0 {
            out.push(',');
        }
        push_order_json(out, &s[i]);
        i = i + 1;
    }
    proof {
        assert(s@.take(s@.len() as int) =~= s@);
    }
    out.push(']');
    proof {
        assert(out@ =~= old(out)@ + spec_orders_json(s@));
    }
}

/// Appends an optional order: its JSON, or `null`.
pub fn push_opt_order_json(out: &mut Vec<char>, o: Option<Order>)
    ensures
        final(out)@ == old(out)@ + spec_opt_order_json(o),
{
    match o {
        Some(v) => push_order_json(out, &v),
        None => push_str_chars(out, "null"),
    }
}

/// The closing brace and trailing whitespace, executably.
fn body_close_at(v: &[char], i: usize) -> (r: bool)
    requires
        i <= v@.len(),
    ensures
        r == (spec_body_close(v@, i as int, 0, Seq::empty()) is Some),
        r ==> forall|tid: u32, items: Seq<u32>|
            spec_body_close(v@, i as int, tid, items) == Some::<(u32, Seq<u32>)>((tid, items)),
        !r ==> forall|tid: u32, items: Seq<u32>|
            spec_body_close(v@, i as int, tid, items) is None,
{
    let k = ws_end_at(v, i);
    if k < v.len() && v[k] == '}' {
        ws_end_at(v, k + 1) == v.len()
    } else {
        false
    }
}

} // verus!

//! The JSON documents the visual explainer reads: one journal line in, its
//! events and the whole book out.
//!
//! Output shape: `{"ok":true,"command":...,"events":[...],"book":{...}}` or
//! `{"ok":false,"error":"..."}`. Each event carries its stable text form in
//! `"text"`, identical to what the replay tool prints.
use vstd::prelude::*;

use crate::book::{summary, OrderBook, RestingOrder};
use crate::command::{Command, Event};
use crate::engine::{apply_spec, room_for, MatchingEngine};
use crate::journal::{
    cancel_text, command_text, event_text, fault_text, parse_line, parse_line_spec, priority_text,
    push_cancel_reason, push_command, push_event, push_priority, push_reject, push_side, reject_text,
    side_text, ParseFault,
};
use crate::queue::{at_price, runs};
use crate::text::{dec, dec_int, lemma_add_assoc, push_dec, push_dec_i64, push_str, string_of};
use crate::types::{OrderType, Side};

verus! {

/// A lowercase hexadecimal digit.
pub open spec fn hex(d: nat) -> char {
    if d < 10 {
        crate::text::digit(d)
    } else if d == 10 {
        'a'
    } else if d == 11 {
        'b'
    } else if d == 12 {
        'c'
    } else if d == 13 {
        'd'
    } else if d == 14 {
        'e'
    } else {
        'f'
    }
}

/// One character inside a JSON string: quote and backslash escaped, control
/// characters as `\u00XX`.
pub open spec fn json_char(c: char) -> Seq<char> {
    if c == '"' {
        seq!['\\', '"']
    } else if c == '\\' {
        seq!['\\', '\\']
    } else if (c as u32) < 0x20 {
        seq!['\\', 'u', '0', '0', hex(((c as u32) / 16) as nat), hex(((c as u32) % 16) as nat)]
    } else {
        seq![c]
    }
}

/// The escaped characters of `s`.
pub open spec fn json_chars(s: Seq<char>) -> Seq<char>
    decreases s.len(),
{
    if s.len() == 0 {
        Seq::empty()
    } else {
        json_chars(s.drop_last()) + json_char(s.last())
    }
}

/// `s` as a JSON string.
pub open spec fn json_string(s: Seq<char>) -> Seq<char> {
    seq!['"'] + json_chars(s) + seq!['"']
}

pub(crate) fn hex_char(d: u32) -> (c: char)
    requires
        d < 16,
    ensures
        c == hex(d as nat),
{
    if d < 10 {
        crate::text::digit_char(d as u64)
    } else if d == 10 {
        'a'
    } else if d == 11 {
        'b'
    } else if d == 12 {
        'c'
    } else if d == 13 {
        'd'
    } else if d == 14 {
        'e'
    } else {
        'f'
    }
}

/// Appends `s` as a JSON string.
pub fn push_json_string(out: &mut Vec<char>, s: &Vec<char>)
    ensures
        final(out)@ == old(out)@ + json_string(s@),
{
    let ghost o0 = out@;
    out.push('"');
    let mut i: usize = 0;
    while i < s.len()
        invariant
            0 <= i <= s@.len(),
            out@ == o0 + seq!['"'] + json_chars(s@.take(i as int)),
        decreases s@.len() - i,
    {
        let c = s[i];
        let ghost before = out@;
        if c == '"' {
            out.push('\\');
            out.push('"');
        } else if c == '\\' {
            out.push('\\');
            out.push('\\');
        } else if (c as u32) < 0x20 {
            let code = c as u32;
            out.push('\\');
            out.push('u');
            out.push('0');
            out.push('0');
            out.push(hex_char(code / 16));
            out.push(hex_char(code % 16));
        } else {
            out.push(c);
        }
        proof {
            let t = s@.take(i as int + 1);
            assert(t.drop_last() =~= s@.take(i as int));
            assert(t.last() == c);
            assert(out@ =~= before + json_char(c));
            assert(o0 + seq!['"'] + json_chars(s@.take(i as int)) + json_char(c) =~= o0 + seq!['"']
                + json_chars(t));
        }
        i = i + 1;
    }
    out.push('"');
    proof {
        assert(s@.take(i as int) =~= s@);
        assert(out@ =~= o0 + json_string(s@));
    }
}

/// A control character: general category Cc, `U+0000`-`U+001F` and
/// `U+007F`-`U+009F`.
pub open spec fn is_control(c: char) -> bool {
    (c as u32) < 0x20 || (0x7f <= (c as u32) && (c as u32) <= 0x9f)
}

/// One character inside a report's JSON string: quote and backslash
/// escaped, every control character as `\u00XX`.
pub open spec fn report_char(c: char) -> Seq<char> {
    if c == '"' {
        seq!['\\', '"']
    } else if c == '\\' {
        seq!['\\', '\\']
    } else if is_control(c) {
        seq!['\\', 'u', '0', '0', hex(((c as u32) / 16) as nat), hex(((c as u32) % 16) as nat)]
    } else {
        seq![c]
    }
}

/// The escaped characters of `s` in a report.
pub open spec fn report_chars(s: Seq<char>) -> Seq<char>
    decreases s.len(),
{
    if s.len() == 0 {
        Seq::empty()
    } else {
        report_chars(s.drop_last()) + report_char(s.last())
    }
}

/// `s` as a JSON string of a report.
pub open spec fn report_string(s: Seq<char>) -> Seq<char> {
    seq!['"'] + report_chars(s) + seq!['"']
}

/// `s` as a JSON string of a report.
pub fn json_str(s: &str) -> (r: String)
    ensures
        r@ == report_string(s@),
{
    let cs = crate::text::chars_of(s);
    let mut out: Vec<char> = Vec::new();
    out.push('"');
    let mut i: usize = 0;
    while i < cs.len()
        invariant
            cs@ == s@,
            0 <= i <= cs@.len(),
            out@ == seq!['"'] + report_chars(cs@.take(i as int)),
        decreases cs@.len() - i,
    {
        let c = cs[i];
        let ghost before = out@;
        let code = c as u32;
        if c == '"' {
            out.push('\\');
            out.push('"');
        } else if c == '\\' {
            out.push('\\');
            out.push('\\');
        } else if code < 0x20 || (0x7f <= code && code <= 0x9f) {
            out.push('\\');
            out.push('u');
            out.push('0');
            out.push('0');
            out.push(hex_char(code / 16));
            out.push(hex_char(code % 16));
        } else {
            out.push(c);
        }
        proof {
            let t = cs@.take(i as int + 1);
            assert(t.drop_last() =~= cs@.take(i as int));
            assert(t.last() == c);
            assert(out@ =~= before + report_char(c));
            assert(seq!['"'] + report_chars(cs@.take(i as int)) + report_char(c) =~= seq!['"'] + report_chars(t));
        }
        i = i + 1;
    }
    out.push('"');
    proof {
        assert(cs@.take(i as int) =~= cs@);
        assert(out@ =~= report_string(s@));
    }
    string_of(&out)
}

/// An optional JSON number: the number, or `null`.
pub open spec fn num_or_null(n: Option<int>) -> Seq<char> {
    match n {
        Some(v) => dec_int(v),
        None => "null"@,
    }
}

/// A `"key":value` pair after the first field of an object.
#[verifier::opaque]
pub open spec fn pair(key: Seq<char>, value: Seq<char>) -> Seq<char> {
    ",\""@ + key + "\":"@ + value
}

/// The name of an order type.
pub open spec fn kind_name(k: OrderType) -> Seq<char> {
    match k {
        OrderType::Limit { .. } => "limit"@,
        OrderType::Ioc { .. } => "ioc"@,
        OrderType::Market => "market"@,
    }
}

/// The type name and the fields of an event.
pub open spec fn event_fields(e: Event) -> (Seq<char>, Seq<char>) {
    match e {
        Event::Accepted { id, side, kind, qty, seq } => (
            "accepted"@,
            pair("id"@, dec(id.0 as nat)) + pair("side"@, json_string(side_text(side))) + pair("orderType"@, json_string(kind_name(kind))) + pair("price"@, num_or_null(
                        match crate::types::spec_limit(kind) {
                            Some(p) => Some(p.0 as int),
                            None => None,
                        },
                    )) + pair("qty"@, dec(qty.0 as nat)) + pair("seq"@, dec(seq.0 as nat)),
        ),
        Event::Rejected { id, reason } => (
            "rejected"@,
            pair("id"@, num_or_null(
                        match id {
                            Some(i) => Some(i.0 as int),
                            None => None,
                        },
                    )) + pair("reason"@, json_string(reject_text(reason))),
        ),
        Event::Amended { id, price, old_qty, qty, seq, priority } => (
            "amended"@,
            pair("id"@, dec(id.0 as nat)) + pair("price"@, dec_int(price.0 as int)) + pair("oldQty"@, dec(old_qty.0 as nat)) + pair("qty"@, dec(qty.0 as nat)) + pair("seq"@, dec(seq.0 as nat)) + pair("priority"@, json_string(priority_text(priority))),
        ),
        Event::Trade { maker, taker, taker_side, price, qty } => (
            "trade"@,
            pair("maker"@, dec(maker.0 as nat)) + pair("taker"@, dec(taker.0 as nat)) + pair("takerSide"@, json_string(side_text(taker_side))) + pair("price"@, dec_int(price.0 as int)) + pair("qty"@, dec(qty.0 as nat)),
        ),
        Event::Filled { id } => ("filled"@, pair("id"@, dec(id.0 as nat))),
        Event::Rested { id, side, price, qty, seq } => (
            "rested"@,
            pair("id"@, dec(id.0 as nat)) + pair("side"@, json_string(side_text(side))) + pair("price"@, dec_int(price.0 as int)) + pair("qty"@, dec(qty.0 as nat)) + pair("seq"@, dec(seq.0 as nat)),
        ),
        Event::Cancelled { id, qty, reason } => (
            "cancelled"@,
            pair("id"@, dec(id.0 as nat)) + pair("qty"@, dec(qty.0 as nat)) + pair("reason"@, json_string(cancel_text(reason))),
        ),
    }
}

/// An event as a JSON object: its type, its fields, and its text.
pub open spec fn event_json(e: Event) -> Seq<char> {
    let (kind, pairs) = event_fields(e);
    "{\"type\":"@ + json_string(kind) + pairs + ",\"text\":"@ + json_string(event_text(e))
        + "}"@
}

/// `json` carries `value` under `key`: somewhere in it stands the pair
/// `,"key":value`, closed by the comma that starts the next member.
pub open spec fn has_field(json: Seq<char>, key: Seq<char>, value: Seq<char>) -> bool {
    exists|a: Seq<char>, b: Seq<char>| json == a + ",\""@ + key + "\":"@ + value + ","@ + b
}

/// A pair followed by anything starting with a comma is a field.
proof fn lemma_field_at(pre: Seq<char>, key: Seq<char>, value: Seq<char>, post: Seq<char>)
    requires
        post.len() > 0,
        post[0] == ',',
    ensures
        has_field(pre + pair(key, value) + post, key, value),
{
    reveal(pair);
    reveal_strlit(",");
    let b = post.drop_first();
    assert(post =~= ","@ + b);
    assert(pre + pair(key, value) + post =~= pre + ",\""@ + key + "\":"@ + value + ","@ + b);
}

/// Whatever starts with a pair starts with a comma.
proof fn lemma_pair_first(key: Seq<char>, value: Seq<char>, rest: Seq<char>)
    ensures
        (pair(key, value) + rest).len() > 0,
        (pair(key, value) + rest)[0] == ',',
{
    reveal(pair);
    reveal_strlit(",\"");
}

/// The text member starts with a comma.
proof fn lemma_text_first(rest: Seq<char>)
    ensures
        (",\"text\":"@ + rest).len() > 0,
        (",\"text\":"@ + rest)[0] == ',',
{
    reveal_strlit(",\"text\":");
}

#[verifier::rlimit(100)]
#[verifier::spinoff_prover]
proof fn lemma_amended_json(e: Event)
    ensures
        e matches Event::Amended { id, price, old_qty, qty, seq, .. } ==> {
            let j = event_json(e);
            &&& has_field(j, "id"@, dec(id.0 as nat))
            &&& has_field(j, "price"@, dec_int(price.0 as int))
            &&& has_field(j, "oldQty"@, dec(old_qty.0 as nat))
            &&& has_field(j, "qty"@, dec(qty.0 as nat))
            &&& has_field(j, "seq"@, dec(seq.0 as nat))
        },
{
    let (kind, _) = event_fields(e);
    let h = "{\"type\":"@ + json_string(kind);
    let t = ",\"text\":"@ + json_string(event_text(e)) + "}"@;
    lemma_text_first(json_string(event_text(e)) + "}"@);
    assert(t =~= ",\"text\":"@ + (json_string(event_text(e)) + "}"@));
    match e {
        Event::Amended { id, price, old_qty, qty, seq, priority } => {
            let p1 = pair("id"@, dec(id.0 as nat));
            let p2 = pair("price"@, dec_int(price.0 as int));
            let p3 = pair("oldQty"@, dec(old_qty.0 as nat));
            let p4 = pair("qty"@, dec(qty.0 as nat));
            let p5 = pair("seq"@, dec(seq.0 as nat));
            let p6 = pair("priority"@, json_string(priority_text(priority)));
            let j = event_json(e);
            assert(j =~= h + p1 + p2 + p3 + p4 + p5 + p6 + t);
            lemma_pair_first("price"@, dec_int(price.0 as int), p3 + p4 + p5 + p6 + t);
            lemma_pair_first("oldQty"@, dec(old_qty.0 as nat), p4 + p5 + p6 + t);
            lemma_pair_first("qty"@, dec(qty.0 as nat), p5 + p6 + t);
            lemma_pair_first("seq"@, dec(seq.0 as nat), p6 + t);
            lemma_pair_first("priority"@, json_string(priority_text(priority)), t);
            assert(j =~= h + p1 + (p2 + p3 + p4 + p5 + p6 + t));
            lemma_field_at(h, "id"@, dec(id.0 as nat), p2 + p3 + p4 + p5 + p6 + t);
            assert(p2 + p3 + p4 + p5 + p6 + t =~= p2 + (p3 + p4 + p5 + p6 + t));
            assert(j =~= (h + p1) + p2 + (p3 + p4 + p5 + p6 + t));
            lemma_field_at(h + p1, "price"@, dec_int(price.0 as int), p3 + p4 + p5 + p6 + t);
            assert(p3 + p4 + p5 + p6 + t =~= p3 + (p4 + p5 + p6 + t));
            assert(j =~= (h + p1 + p2) + p3 + (p4 + p5 + p6 + t));
            lemma_field_at(h + p1 + p2, "oldQty"@, dec(old_qty.0 as nat), p4 + p5 + p6 + t);
            assert(p4 + p5 + p6 + t =~= p4 + (p5 + p6 + t));
            assert(j =~= (h + p1 + p2 + p3) + p4 + (p5 + p6 + t));
            lemma_field_at(h + p1 + p2 + p3, "qty"@, dec(qty.0 as nat), p5 + p6 + t);
            assert(p5 + p6 + t =~= p5 + (p6 + t));
            assert(j =~= (h + p1 + p2 + p3 + p4) + p5 + (p6 + t));
            lemma_field_at(h + p1 + p2 + p3 + p4, "seq"@, dec(seq.0 as nat), p6 + t);
        },
        _ => {},
    }
}

#[verifier::rlimit(100)]
#[verifier::spinoff_prover]
proof fn lemma_trade_json(e: Event)
    ensures
        e matches Event::Trade { maker, taker, price, qty, .. } ==> {
            let j = event_json(e);
            &&& has_field(j, "maker"@, dec(maker.0 as nat))
            &&& has_field(j, "taker"@, dec(taker.0 as nat))
            &&& has_field(j, "price"@, dec_int(price.0 as int))
            &&& has_field(j, "qty"@, dec(qty.0 as nat))
        },
{
    let (kind, _) = event_fields(e);
    let h = "{\"type\":"@ + json_string(kind);
    let t = ",\"text\":"@ + json_string(event_text(e)) + "}"@;
    lemma_text_first(json_string(event_text(e)) + "}"@);
    assert(t =~= ",\"text\":"@ + (json_string(event_text(e)) + "}"@));
    match e {
        Event::Trade { maker, taker, taker_side, price, qty } => {
            let p1 = pair("maker"@, dec(maker.0 as nat));
            let p2 = pair("taker"@, dec(taker.0 as nat));
            let p3 = pair("takerSide"@, json_string(side_text(taker_side)));
            let p4 = pair("price"@, dec_int(price.0 as int));
            let p5 = pair("qty"@, dec(qty.0 as nat));
            let j = event_json(e);
            assert(j =~= h + p1 + p2 + p3 + p4 + p5 + t);
            lemma_pair_first("taker"@, dec(taker.0 as nat), p3 + p4 + p5 + t);
            lemma_pair_first("takerSide"@, json_string(side_text(taker_side)), p4 + p5 + t);
            lemma_pair_first("qty"@, dec(qty.0 as nat), t);
            assert(j =~= h + p1 + (p2 + p3 + p4 + p5 + t));
            lemma_field_at(h, "maker"@, dec(maker.0 as nat), p2 + p3 + p4 + p5 + t);
            assert(p2 + p3 + p4 + p5 + t =~= p2 + (p3 + p4 + p5 + t));
            assert(j =~= (h + p1) + p2 + (p3 + p4 + p5 + t));
            lemma_field_at(h + p1, "taker"@, dec(taker.0 as nat), p3 + p4 + p5 + t);
            assert(j =~= (h + p1 + p2 + p3) + p4 + (p5 + t));
            lemma_pair_first("qty"@, dec(qty.0 as nat), t);
            lemma_pair_first("price"@, dec_int(price.0 as int), p5 + t);
            lemma_field_at(h + p1 + p2 + p3, "price"@, dec_int(price.0 as int), p5 + t);
            assert(j =~= (h + p1 + p2 + p3 + p4) + p5 + t);
            lemma_field_at(h + p1 + p2 + p3 + p4, "qty"@, dec(qty.0 as nat), t);
        },
        _ => {},
    }
}

#[verifier::rlimit(100)]
#[verifier::spinoff_prover]
proof fn lemma_rested_json(e: Event)
    ensures
        e matches Event::Rested { id, price, qty, seq, .. } ==> {
            let j = event_json(e);
            &&& has_field(j, "id"@, dec(id.0 as nat))
            &&& has_field(j, "price"@, dec_int(price.0 as int))
            &&& has_field(j, "qty"@, dec(qty.0 as nat))
            &&& has_field(j, "seq"@, dec(seq.0 as nat))
        },
{
    let (kind, _) = event_fields(e);
    let h = "{\"type\":"@ + json_string(kind);
    let t = ",\"text\":"@ + json_string(event_text(e)) + "}"@;
    lemma_text_first(json_string(event_text(e)) + "}"@);
    assert(t =~= ",\"text\":"@ + (json_string(event_text(e)) + "}"@));
    match e {
        Event::Rested { id, side, price, qty, seq } => {
            let p1 = pair("id"@, dec(id.0 as nat));
            let p2 = pair("side"@, json_string(side_text(side)));
            let p3 = pair("price"@, dec_int(price.0 as int));
            let p4 = pair("qty"@, dec(qty.0 as nat));
            let p5 = pair("seq"@, dec(seq.0 as nat));
            let j = event_json(e);
            assert(j =~= h + p1 + p2 + p3 + p4 + p5 + t);
            lemma_pair_first("side"@, json_string(side_text(side)), p3 + p4 + p5 + t);
            lemma_pair_first("qty"@, dec(qty.0 as nat), p5 + t);
            lemma_pair_first("seq"@, dec(seq.0 as nat), t);
            assert(j =~= h + p1 + (p2 + p3 + p4 + p5 + t));
            lemma_field_at(h, "id"@, dec(id.0 as nat), p2 + p3 + p4 + p5 + t);
            assert(j =~= (h + p1 + p2) + p3 + (p4 + p5 + t));
            lemma_pair_first("qty"@, dec(qty.0 as nat), p5 + t);
            lemma_field_at(h + p1 + p2, "price"@, dec_int(price.0 as int), p4 + p5 + t);
            assert(j =~= (h + p1 + p2 + p3) + p4 + (p5 + t));
            lemma_field_at(h + p1 + p2 + p3, "qty"@, dec(qty.0 as nat), p5 + t);
            assert(j =~= (h + p1 + p2 + p3 + p4) + p5 + t);
            lemma_field_at(h + p1 + p2 + p3 + p4, "seq"@, dec(seq.0 as nat), t);
        },
        _ => {},
    }
}

#[verifier::rlimit(100)]
#[verifier::spinoff_prover]
proof fn lemma_cancelled_json(e: Event)
    ensures
        e matches Event::Cancelled { id, qty, .. } ==> {
            let j = event_json(e);
            &&& has_field(j, "id"@, dec(id.0 as nat))
            &&& has_field(j, "qty"@, dec(qty.0 as nat))
        },
{
    let (kind, _) = event_fields(e);
    let h = "{\"type\":"@ + json_string(kind);
    let t = ",\"text\":"@ + json_string(event_text(e)) + "}"@;
    lemma_text_first(json_string(event_text(e)) + "}"@);
    assert(t =~= ",\"text\":"@ + (json_string(event_text(e)) + "}"@));
    match e {
        Event::Cancelled { id, qty, reason } => {
            let p1 = pair("id"@, dec(id.0 as nat));
            let p2 = pair("qty"@, dec(qty.0 as nat));
            let p3 = pair("reason"@, json_string(cancel_text(reason)));
            let j = event_json(e);
            assert(j =~= h + p1 + p2 + p3 + t);
            lemma_pair_first("qty"@, dec(qty.0 as nat), p3 + t);
            lemma_pair_first("reason"@, json_string(cancel_text(reason)), t);
            assert(j =~= h + p1 + (p2 + p3 + t));
            lemma_field_at(h, "id"@, dec(id.0 as nat), p2 + p3 + t);
            assert(j =~= (h + p1) + p2 + (p3 + t));
            lemma_field_at(h + p1, "qty"@, dec(qty.0 as nat), p3 + t);
        },
        _ => {},
    }
}

#[verifier::rlimit(100)]
#[verifier::spinoff_prover]
proof fn lemma_accepted_json(e: Event)
    ensures
        e matches Event::Accepted { id, qty, seq, .. } ==> {
            let j = event_json(e);
            &&& has_field(j, "id"@, dec(id.0 as nat))
            &&& has_field(j, "qty"@, dec(qty.0 as nat))
            &&& has_field(j, "seq"@, dec(seq.0 as nat))
        },
{
    let (kind, _) = event_fields(e);
    let h = "{\"type\":"@ + json_string(kind);
    let t = ",\"text\":"@ + json_string(event_text(e)) + "}"@;
    lemma_text_first(json_string(event_text(e)) + "}"@);
    assert(t =~= ",\"text\":"@ + (json_string(event_text(e)) + "}"@));
    match e {
        Event::Accepted { id, side, kind, qty, seq } => {
            let p1 = pair("id"@, dec(id.0 as nat));
            let p2 = pair("side"@, json_string(side_text(side)));
            let p3 = pair("orderType"@, json_string(kind_name(kind)));
            let p4 = pair(
                "price"@,
                num_or_null(
                    match crate::types::spec_limit(kind) {
                        Some(p) => Some(p.0 as int),
                        None => None,
                    },
                ),
            );
            let p5 = pair("qty"@, dec(qty.0 as nat));
            let p6 = pair("seq"@, dec(seq.0 as nat));
            let j = event_json(e);
            assert(j =~= h + p1 + p2 + p3 + p4 + p5 + p6 + t);
            lemma_pair_first("side"@, json_string(side_text(side)), p3 + p4 + p5 + p6 + t);
            lemma_pair_first("seq"@, dec(seq.0 as nat), t);
            lemma_pair_first("seq"@, dec(seq.0 as nat), p6 + t);
            assert(j =~= h + p1 + (p2 + p3 + p4 + p5 + p6 + t));
            lemma_field_at(h, "id"@, dec(id.0 as nat), p2 + p3 + p4 + p5 + p6 + t);
            assert(j =~= (h + p1 + p2 + p3 + p4) + p5 + (p6 + t));
            lemma_field_at(h + p1 + p2 + p3 + p4, "qty"@, dec(qty.0 as nat), p6 + t);
            assert(j =~= (h + p1 + p2 + p3 + p4 + p5) + p6 + t);
            lemma_field_at(h + p1 + p2 + p3 + p4 + p5, "seq"@, dec(seq.0 as nat), t);
        },
        _ => {},
    }
}

#[verifier::rlimit(100)]
#[verifier::spinoff_prover]
proof fn lemma_filled_json(e: Event)
    ensures
        e matches Event::Filled { id } ==> has_field(event_json(e), "id"@, dec(id.0 as nat)),
{
    let (kind, _) = event_fields(e);
    let h = "{\"type\":"@ + json_string(kind);
    let t = ",\"text\":"@ + json_string(event_text(e)) + "}"@;
    lemma_text_first(json_string(event_text(e)) + "}"@);
    assert(t =~= ",\"text\":"@ + (json_string(event_text(e)) + "}"@));
    match e {
        Event::Filled { id } => {
            let p1 = pair("id"@, dec(id.0 as nat));
            let j = event_json(e);
            assert(j =~= h + p1 + t);
            lemma_field_at(h, "id"@, dec(id.0 as nat), t);
        },
        _ => {},
    }
}

/// The JSON of an event carries each of the event's numbers under the
/// field named for it: an amend's old quantity under `oldQty` and its new
/// quantity under `qty`; a trade's maker, taker, price and quantity under
/// `maker`, `taker`, `price` and `qty`; and the id, price, quantity and
/// sequence number of an accepted, rested or cancelled order under `id`,
/// `price`, `qty` and `seq`.
pub proof fn lemma_event_json_fields(e: Event)
    ensures
        e matches Event::Amended { id, price, old_qty, qty, seq, .. } ==> {
            let j = event_json(e);
            &&& has_field(j, "id"@, dec(id.0 as nat))
            &&& has_field(j, "price"@, dec_int(price.0 as int))
            &&& has_field(j, "oldQty"@, dec(old_qty.0 as nat))
            &&& has_field(j, "qty"@, dec(qty.0 as nat))
            &&& has_field(j, "seq"@, dec(seq.0 as nat))
        },
        e matches Event::Trade { maker, taker, price, qty, .. } ==> {
            let j = event_json(e);
            &&& has_field(j, "maker"@, dec(maker.0 as nat))
            &&& has_field(j, "taker"@, dec(taker.0 as nat))
            &&& has_field(j, "price"@, dec_int(price.0 as int))
            &&& has_field(j, "qty"@, dec(qty.0 as nat))
        },
        e matches Event::Rested { id, price, qty, seq, .. } ==> {
            let j = event_json(e);
            &&& has_field(j, "id"@, dec(id.0 as nat))
            &&& has_field(j, "price"@, dec_int(price.0 as int))
            &&& has_field(j, "qty"@, dec(qty.0 as nat))
            &&& has_field(j, "seq"@, dec(seq.0 as nat))
        },
        e matches Event::Cancelled { id, qty, .. } ==> {
            let j = event_json(e);
            &&& has_field(j, "id"@, dec(id.0 as nat))
            &&& has_field(j, "qty"@, dec(qty.0 as nat))
        },
        e matches Event::Accepted { id, qty, seq, .. } ==> {
            let j = event_json(e);
            &&& has_field(j, "id"@, dec(id.0 as nat))
            &&& has_field(j, "qty"@, dec(qty.0 as nat))
            &&& has_field(j, "seq"@, dec(seq.0 as nat))
        },
        e matches Event::Filled { id } ==> has_field(event_json(e), "id"@, dec(id.0 as nat)),
{
    lemma_amended_json(e);
    lemma_trade_json(e);
    lemma_rested_json(e);
    lemma_cancelled_json(e);
    lemma_accepted_json(e);
    lemma_filled_json(e);
}

/// Items joined by commas.
pub open spec fn join(items: Seq<Seq<char>>) -> Seq<char>
    decreases items.len(),
{
    if items.len() == 0 {
        Seq::empty()
    } else if items.len() == 1 {
        items[0]
    } else {
        join(items.drop_last()) + ","@ + items.last()
    }
}

/// One resting order: id, open quantity, sequence number.
pub open spec fn order_json(o: RestingOrder) -> Seq<char> {
    "{\"id\":"@ + dec(o.id.0 as nat) + ",\"qty\":"@ + dec(o.qty.0 as nat) + ",\"seq\":"@ + dec(
        o.seq.0 as nat,
    ) + "}"@
}

/// One price level of queue `q`: its price, total, and orders in queue
/// order.
pub open spec fn level_json(q: Seq<RestingOrder>, run: Seq<RestingOrder>) -> Seq<char> {
    let s = summary(run);
    "{\"price\":"@ + dec_int(s.price.0 as int) + ",\"qty\":"@ + dec(s.qty.0 as nat) + ",\"orders\":["@
        + join(at_price(q, s.price).map_values(|o: RestingOrder| order_json(o))) + "]}"@
}

/// The levels of a side, best first.
pub open spec fn side_json(q: Seq<RestingOrder>) -> Seq<char> {
    join(runs(q).map_values(|run: Seq<RestingOrder>| level_json(q, run)))
}

/// Both sides, best price first.
pub open spec fn book_json(bids: Seq<RestingOrder>, asks: Seq<RestingOrder>) -> Seq<char> {
    "{\"bids\":["@ + side_json(bids) + "],\"asks\":["@ + side_json(asks) + "]}"@
}

/// A failure document.
pub open spec fn error_json(message: Seq<char>) -> Seq<char> {
    "{\"ok\":false,\"error\":"@ + json_string(message) + "}"@
}

/// Appends `,"key":`.
fn push_key(out: &mut Vec<char>, key: &str)
    ensures
        final(out)@ == old(out)@ + ",\""@ + key@ + "\":"@,
{
    broadcast use lemma_add_assoc;
    push_str(out, ",\"");
    push_str(out, key);
    push_str(out, "\":");
}


/// Appends `,"key":` and the decimal digits of `v`.
fn push_pair_dec(out: &mut Vec<char>, key: &str, v: u64)
    ensures
        final(out)@ == old(out)@ + pair(key@, dec(v as nat)),
{
    reveal(pair);
    broadcast use lemma_add_assoc;
    push_key(out, key);
    push_dec(out, v);
}

/// Appends `,"key":` and the decimal form of `v`.
fn push_pair_int(out: &mut Vec<char>, key: &str, v: i64)
    ensures
        final(out)@ == old(out)@ + pair(key@, dec_int(v as int)),
{
    reveal(pair);
    broadcast use lemma_add_assoc;
    push_key(out, key);
    push_dec_i64(out, v);
}

/// Appends `,"key":` and `s` as a JSON string.
fn push_pair_str(out: &mut Vec<char>, key: &str, s: &Vec<char>)
    ensures
        final(out)@ == old(out)@ + pair(key@, json_string(s@)),
{
    reveal(pair);
    broadcast use lemma_add_assoc;
    push_key(out, key);
    push_json_string(out, s);
}

/// Appends `,"key":` and `v` or `null`.
fn push_pair_opt(out: &mut Vec<char>, key: &str, v: Option<i64>)
    ensures
        final(out)@ == old(out)@ + pair(key@, num_or_null(match v {
            Some(x) => Some(x as int),
            None => None,
        })),
{
    reveal(pair);
    broadcast use lemma_add_assoc;
    push_key(out, key);
    match v {
        Some(x) => push_dec_i64(out, x),
        None => push_str(out, "null"),
    }
}

/// Appends `,"key":` and `v` or `null`.
fn push_pair_opt_u64(out: &mut Vec<char>, key: &str, v: Option<u64>)
    ensures
        final(out)@ == old(out)@ + pair(key@, num_or_null(match v {
            Some(x) => Some(x as int),
            None => None,
        })),
{
    reveal(pair);
    broadcast use lemma_add_assoc;
    push_key(out, key);
    match v {
        Some(x) => push_dec(out, x),
        None => push_str(out, "null"),
    }
}

fn side_chars(s: Side) -> (r: Vec<char>)
    ensures
        r@ == side_text(s),
{
    let mut v: Vec<char> = Vec::new();
    push_side(&mut v, s);
    proof {
        assert(v@ =~= side_text(s));
    }
    v
}

fn kind_chars(k: OrderType) -> (r: Vec<char>)
    ensures
        r@ == kind_name(k),
{
    match k {
        OrderType::Limit { .. } => crate::text::chars_of("limit"),
        OrderType::Ioc { .. } => crate::text::chars_of("ioc"),
        OrderType::Market => crate::text::chars_of("market"),
    }
}

fn reject_chars(r: crate::command::RejectReason) -> (v: Vec<char>)
    ensures
        v@ == reject_text(r),
{
    let mut v: Vec<char> = Vec::new();
    push_reject(&mut v, r);
    proof {
        assert(v@ =~= reject_text(r));
    }
    v
}

fn cancel_chars(r: crate::command::CancelReason) -> (v: Vec<char>)
    ensures
        v@ == cancel_text(r),
{
    let mut v: Vec<char> = Vec::new();
    push_cancel_reason(&mut v, r);
    proof {
        assert(v@ =~= cancel_text(r));
    }
    v
}

fn priority_chars(p: crate::command::Priority) -> (v: Vec<char>)
    ensures
        v@ == priority_text(p),
{
    let mut v: Vec<char> = Vec::new();
    push_priority(&mut v, p);
    proof {
        assert(v@ =~= priority_text(p));
    }
    v
}

#[verifier::rlimit(40)]
fn push_fields_accepted(out: &mut Vec<char>, id: crate::types::OrderId, side: Side, kind: OrderType, qty: crate::types::Qty, seq: crate::types::SeqNo)
    ensures
        final(out)@ == old(out)@ + (event_fields(Event::Accepted { id, side, kind, qty, seq }).1),
{
    broadcast use lemma_add_assoc;
    push_pair_dec(out, "id", id.0);
    push_pair_str(out, "side", &side_chars(side));
    push_pair_str(out, "orderType", &kind_chars(kind));
    let limit = match kind.limit() {
        Some(p) => Some(p.0),
        None => None,
    };
    push_pair_opt(out, "price", limit);
    push_pair_dec(out, "qty", qty.0);
    push_pair_dec(out, "seq", seq.0);
}

#[verifier::rlimit(40)]
fn push_fields_rejected(out: &mut Vec<char>, id: Option<crate::types::OrderId>, reason: crate::command::RejectReason)
    ensures
        final(out)@ == old(out)@ + (event_fields(Event::Rejected { id, reason }).1),
{
    broadcast use lemma_add_assoc;
    let n = match id {
        Some(i) => Some(i.0),
        None => None,
    };
    push_pair_opt_u64(out, "id", n);
    push_pair_str(out, "reason", &reject_chars(reason));
}

#[verifier::rlimit(40)]
fn push_fields_amended(out: &mut Vec<char>, id: crate::types::OrderId, price: crate::types::Price, old_qty: crate::types::Qty, qty: crate::types::Qty, seq: crate::types::SeqNo, priority: crate::command::Priority)
    ensures
        final(out)@ == old(out)@ + (event_fields(Event::Amended { id, price, old_qty, qty, seq, priority }).1),
{
    broadcast use lemma_add_assoc;
    push_pair_dec(out, "id", id.0);
    push_pair_int(out, "price", price.0);
    push_pair_dec(out, "oldQty", old_qty.0);
    push_pair_dec(out, "qty", qty.0);
    push_pair_dec(out, "seq", seq.0);
    push_pair_str(out, "priority", &priority_chars(priority));
}

#[verifier::rlimit(40)]
fn push_fields_trade(out: &mut Vec<char>, maker: crate::types::OrderId, taker: crate::types::OrderId, taker_side: Side, price: crate::types::Price, qty: crate::types::Qty)
    ensures
        final(out)@ == old(out)@ + (event_fields(Event::Trade { maker, taker, taker_side, price, qty }).1),
{
    broadcast use lemma_add_assoc;
    push_pair_dec(out, "maker", maker.0);
    push_pair_dec(out, "taker", taker.0);
    push_pair_str(out, "takerSide", &side_chars(taker_side));
    push_pair_int(out, "price", price.0);
    push_pair_dec(out, "qty", qty.0);
}

#[verifier::rlimit(40)]
fn push_fields_filled(out: &mut Vec<char>, id: crate::types::OrderId)
    ensures
        final(out)@ == old(out)@ + (event_fields(Event::Filled { id }).1),
{
    broadcast use lemma_add_assoc;
    push_pair_dec(out, "id", id.0);
}

#[verifier::rlimit(40)]
fn push_fields_rested(out: &mut Vec<char>, id: crate::types::OrderId, side: Side, price: crate::types::Price, qty: crate::types::Qty, seq: crate::types::SeqNo)
    ensures
        final(out)@ == old(out)@ + (event_fields(Event::Rested { id, side, price, qty, seq }).1),
{
    broadcast use lemma_add_assoc;
    push_pair_dec(out, "id", id.0);
    push_pair_str(out, "side", &side_chars(side));
    push_pair_int(out, "price", price.0);
    push_pair_dec(out, "qty", qty.0);
    push_pair_dec(out, "seq", seq.0);
}

#[verifier::rlimit(40)]
fn push_fields_cancelled(out: &mut Vec<char>, id: crate::types::OrderId, qty: crate::types::Qty, reason: crate::command::CancelReason)
    ensures
        final(out)@ == old(out)@ + (event_fields(Event::Cancelled { id, qty, reason }).1),
{
    broadcast use lemma_add_assoc;
    push_pair_dec(out, "id", id.0);
    push_pair_dec(out, "qty", qty.0);
    push_pair_str(out, "reason", &cancel_chars(reason));
}

/// Appends the fields of `e`.
fn push_fields(out: &mut Vec<char>, e: Event)
    ensures
        final(out)@ == old(out)@ + (event_fields(e).1),
{
    match e {
        Event::Accepted { id, side, kind, qty, seq } => push_fields_accepted(out, id, side, kind, qty, seq),
        Event::Rejected { id, reason } => push_fields_rejected(out, id, reason),
        Event::Amended { id, price, old_qty, qty, seq, priority } => push_fields_amended(out, id, price, old_qty, qty, seq, priority),
        Event::Trade { maker, taker, taker_side, price, qty } => push_fields_trade(out, maker, taker, taker_side, price, qty),
        Event::Filled { id } => push_fields_filled(out, id),
        Event::Rested { id, side, price, qty, seq } => push_fields_rested(out, id, side, price, qty, seq),
        Event::Cancelled { id, qty, reason } => push_fields_cancelled(out, id, qty, reason),
    }
}

/// The type name of `e`.
fn type_chars(e: Event) -> (r: Vec<char>)
    ensures
        r@ == event_fields(e).0,
{
    match e {
        Event::Accepted { .. } => crate::text::chars_of("accepted"),
        Event::Rejected { .. } => crate::text::chars_of("rejected"),
        Event::Amended { .. } => crate::text::chars_of("amended"),
        Event::Trade { .. } => crate::text::chars_of("trade"),
        Event::Filled { .. } => crate::text::chars_of("filled"),
        Event::Rested { .. } => crate::text::chars_of("rested"),
        Event::Cancelled { .. } => crate::text::chars_of("cancelled"),
    }
}

/// Appends `e` as a JSON object.
pub fn push_event_json(out: &mut Vec<char>, e: Event)
    ensures
        final(out)@ == old(out)@ + event_json(e),
{
    broadcast use lemma_add_assoc;
    let mut text: Vec<char> = Vec::new();
    push_event(&mut text, e);
    proof {
        assert(text@ =~= event_text(e));
    }
    push_str(out, "{\"type\":");
    push_json_string(out, &type_chars(e));
    push_fields(out, e);
    push_str(out, ",\"text\":");
    push_json_string(out, &text);
    push_str(out, "}");
}

/// One more item of a comma-separated list.
proof fn lemma_join_take(items: Seq<Seq<char>>, j: int)
    requires
        0 <= j < items.len(),
    ensures
        join(items.take(j + 1)) == (if j == 0 {
            items[0]
        } else {
            join(items.take(j)) + ","@ + items[j]
        }),
{
    let t = items.take(j + 1);
    assert(t.drop_last() =~= items.take(j));
    assert(t.last() == items[j]);
    if j == 0 {
        assert(t[0] == items[0]);
    }
}

/// Appends one resting order.
fn push_order_json(out: &mut Vec<char>, o: RestingOrder)
    ensures
        final(out)@ == old(out)@ + order_json(o),
{
    broadcast use lemma_add_assoc;
    push_str(out, "{\"id\":");
    push_dec(out, o.id.0);
    push_str(out, ",\"qty\":");
    push_dec(out, o.qty.0);
    push_str(out, ",\"seq\":");
    push_dec(out, o.seq.0);
    push_str(out, "}");
}

/// Appends the orders at one price level, comma-separated.
fn push_orders_json(out: &mut Vec<char>, orders: &Vec<RestingOrder>)
    ensures
        final(out)@ == old(out)@ + join(orders@.map_values(|o: RestingOrder| order_json(o))),
{
    let ghost items = orders@.map_values(|o: RestingOrder| order_json(o));
    let ghost o0 = out@;
    let mut k: usize = 0;
    proof {
        assert(items.take(0) =~= Seq::<Seq<char>>::empty());
        assert(o0 + join(items.take(0)) =~= o0);
    }
    while k < orders.len()
        invariant
            items == orders@.map_values(|o: RestingOrder| order_json(o)),
            0 <= k <= orders@.len(),
            out@ == o0 + join(items.take(k as int)),
        decreases orders@.len() - k,
    {
        if k > 0 {
            push_str(out, ",");
        }
        let o = orders[k];
        push_order_json(out, o);
        proof {
            lemma_join_take(items, k as int);
            assert(items[k as int] == order_json(o));
            if k > 0 {
                assert(out@ =~= o0 + (join(items.take(k as int)) + ","@ + items[k as int]));
            } else {
                assert(out@ =~= o0 + items[0]);
            }
        }
        k = k + 1;
    }
    proof {
        assert(items.take(k as int) =~= items);
    }
}


/// Appends one level of `side`, whose summary is `lv`.
fn push_level_json(
    out: &mut Vec<char>,
    b: &OrderBook,
    side: Side,
    lv: crate::book::LevelSummary,
    Ghost(run): Ghost<Seq<RestingOrder>>,
)
    requires
        b.wf(),
        lv == summary(run),
    ensures
        final(out)@ == old(out)@ + level_json(b.queue(side), run),
{
    broadcast use lemma_add_assoc;
    push_str(out, "{\"price\":");
    push_dec_i64(out, lv.price.0);
    push_str(out, ",\"qty\":");
    push_dec(out, lv.qty.0);
    push_str(out, ",\"orders\":[");
    let orders = b.level_orders(side, lv.price);
    push_orders_json(out, &orders);
    push_str(out, "]}");
}

/// Appends the levels of `side`, best first.
fn push_side_json(out: &mut Vec<char>, b: &OrderBook, side: Side)
    requires
        b.wf(),
    ensures
        final(out)@ == old(out)@ + side_json(b.queue(side)),
{
    broadcast use lemma_add_assoc;
    let ghost q = b.queue(side);
    let ghost rs = runs(q);
    let ghost items = rs.map_values(|run: Seq<RestingOrder>| level_json(q, run));
    proof {
        b.lemma_queues();
        crate::queue::lemma_runs_len(q);
    }
    let levels = b.depth(side, usize::MAX);
    proof {
        assert(levels@.len() == rs.len());
        assert(forall|j: int| 0 <= j < rs.len() ==> levels@[j] == summary(#[trigger] rs[j]));
    }
    let ghost o0 = out@;
    let mut j: usize = 0;
    proof {
        assert(items.take(0) =~= Seq::<Seq<char>>::empty());
        assert(o0 + join(items.take(0)) =~= o0);
    }
    while j < levels.len()
        invariant
            b.wf(),
            q == b.queue(side),
            rs == runs(q),
            items == rs.map_values(|run: Seq<RestingOrder>| level_json(q, run)),
            levels@.len() == rs.len(),
            forall|i: int| 0 <= i < rs.len() ==> levels@[i] == summary(#[trigger] rs[i]),
            0 <= j <= levels@.len(),
            out@ == o0 + join(items.take(j as int)),
        decreases levels@.len() - j,
    {
        if j > 0 {
            push_str(out, ",");
        }
        let lv = levels[j];
        push_level_json(out, b, side, lv, Ghost(rs[j as int]));
        proof {
            lemma_join_take(items, j as int);
            assert(lv == summary(rs[j as int]));
            assert(items[j as int] == level_json(q, rs[j as int]));
        }
        j = j + 1;
    }
    proof {
        assert(items.take(j as int) =~= items);
    }
}

/// Appends both sides of `b`.
pub fn push_book_json(out: &mut Vec<char>, b: &OrderBook)
    requires
        b.wf(),
    ensures
        final(out)@ == old(out)@ + book_json(b.queue(Side::Buy), b.queue(Side::Sell)),
{
    broadcast use lemma_add_assoc;
    push_str(out, "{\"bids\":[");
    push_side_json(out, b, Side::Buy);
    push_str(out, "],\"asks\":[");
    push_side_json(out, b, Side::Sell);
    push_str(out, "]}");
}

/// A failure document with `message`.
pub fn error_doc(message: &Vec<char>) -> (s: String)
    ensures
        s@ == error_json(message@),
{
    broadcast use lemma_add_assoc;
    let mut out: Vec<char> = Vec::new();
    push_str(&mut out, "{\"ok\":false,\"error\":");
    push_json_string(&mut out, message);
    push_str(&mut out, "}");
    proof {
        assert(out@ =~= error_json(message@));
    }
    string_of(&out)
}

/// The document for the book alone, with no events.
pub fn book_only(b: &OrderBook) -> (s: String)
    requires
        b.wf(),
    ensures
        s@ == "{\"ok\":true,\"events\":[],\"book\":"@ + book_json(b.queue(Side::Buy), b.queue(Side::Sell))
            + "}"@,
{
    broadcast use lemma_add_assoc;
    let mut out: Vec<char> = Vec::new();
    push_str(&mut out, "{\"ok\":true,\"events\":[],\"book\":");
    push_book_json(&mut out, b);
    push_str(&mut out, "}");
    proof {
        assert(out@ =~= "{\"ok\":true,\"events\":[],\"book\":"@ + book_json(b.queue(Side::Buy), b.queue(
            Side::Sell,
        )) + "}"@);
    }
    string_of(&out)
}

/// The replay tool's lines for `events`: each event's text and a line feed.
pub open spec fn log_text(events: Seq<Event>) -> Seq<char>
    decreases events.len(),
{
    if events.len() == 0 {
        Seq::empty()
    } else {
        log_text(events.drop_last()) + event_text(events.last()) + "\n"@
    }
}

/// The document for an applied command: the command, its events, and the
/// book afterwards.
pub open spec fn applied_json(cmd: Command, events: Seq<Event>, bids: Seq<RestingOrder>, asks: Seq<RestingOrder>) -> Seq<char> {
    "{\"ok\":true,\"command\":"@ + json_string(command_text(cmd)) + ",\"events\":["@ + join(
        events.map_values(|e: Event| event_json(e)),
    ) + "],\"book\":"@ + book_json(bids, asks) + "}"@
}

/// An engine driven one journal line at a time, with the text of every
/// event so far.
pub struct Session {
    pub engine: MatchingEngine,
    pub event_log: String,
}

impl Session {
    /// A session with an empty book and no events.
    pub fn new() -> (s: Session)
        ensures
            s.engine.inv(),
            s.engine.state() == MatchingEngine::new_state(),
            s.event_log@ == Seq::<char>::empty(),
    {
        Session { engine: MatchingEngine::new(), event_log: String::new() }
    }
}

/// Appends the events, comma-separated, as JSON objects.
fn push_events_json(out: &mut Vec<char>, events: &Vec<Event>)
    ensures
        final(out)@ == old(out)@ + join(events@.map_values(|e: Event| event_json(e))),
{
    let ghost items = events@.map_values(|e: Event| event_json(e));
    let ghost o0 = out@;
    let mut k: usize = 0;
    proof {
        assert(items.take(0) =~= Seq::<Seq<char>>::empty());
        assert(o0 + join(items.take(0)) =~= o0);
    }
    while k < events.len()
        invariant
            items == events@.map_values(|e: Event| event_json(e)),
            0 <= k <= events@.len(),
            out@ == o0 + join(items.take(k as int)),
        decreases events@.len() - k,
    {
        let ghost before = out@;
        if k > 0 {
            push_str(out, ",");
        }
        let ghost mid = out@;
        push_event_json(out, events[k]);
        proof {
            lemma_join_take(items, k as int);
            assert(items[k as int] == event_json(events@[k as int]));
            if k > 0 {
                assert(out@ =~= o0 + (join(items.take(k as int)) + ","@ + items[k as int]));
            } else {
                assert(out@ =~= o0 + items[0]);
            }
        }
        k = k + 1;
    }
    proof {
        assert(items.take(k as int) =~= items);
    }
}

/// Parses one journal line and applies it: the JSON document and whether a
/// command was applied. A parse error or a blank line applies nothing.
pub fn apply_line(s: &mut Session, line: &str) -> (r: (String, bool))
    requires
        old(s).engine.inv(),
        parse_line_spec(line@) matches Ok(Some(cmd)) ==> room_for(old(s).engine.state(), cmd),
    ensures
        final(s).engine.inv(),
        match parse_line_spec(line@) {
            Err(k) => {
                &&& r.0@ == error_json(fault_text(k))
                &&& !r.1
                &&& final(s).engine.state() == old(s).engine.state()
                &&& final(s).event_log@ == old(s).event_log@
            },
            Ok(None) => {
                &&& r.0@ == error_json("empty command"@)
                &&& !r.1
                &&& final(s).engine.state() == old(s).engine.state()
                &&& final(s).event_log@ == old(s).event_log@
            },
            Ok(Some(cmd)) => {
                let (st, evs) = apply_spec(old(s).engine.state(), cmd);
                &&& r.1
                &&& final(s).engine.state() == st
                &&& final(s).event_log@ == old(s).event_log@ + log_text(evs)
                &&& r.0@ == applied_json(cmd, evs, st.bids, st.asks)
            },
        },
{
    broadcast use lemma_add_assoc;
    let cmd = match parse_line(line) {
        Ok(Some(cmd)) => cmd,
        Ok(None) => {
            return (error_doc(&crate::text::chars_of("empty command")), false);
        },
        Err(e) => {
            let mut m: Vec<char> = Vec::new();
            e.push_text(&mut m);
            proof {
                assert(m@ =~= fault_text(e@));
            }
            return (error_doc(&m), false);
        },
    };
    let mut events: Vec<Event> = Vec::new();
    s.engine.apply(cmd, &mut events);
    proof {
        assert(events@ =~= apply_spec(old(s).engine.state(), cmd).1);
    }
    let mut log: Vec<char> = Vec::new();
    let mut i: usize = 0;
    proof {
        assert(events@.take(0) =~= Seq::<Event>::empty());
    }
    while i < events.len()
        invariant
            0 <= i <= events@.len(),
            log@ == log_text(events@.take(i as int)),
        decreases events@.len() - i,
    {
        push_event(&mut log, events[i]);
        push_str(&mut log, "\n");
        proof {
            let t = events@.take(i as int + 1);
            assert(t.drop_last() =~= events@.take(i as int));
            assert(t.last() == events@[i as int]);
        }
        i = i + 1;
    }
    proof {
        assert(events@.take(i as int) =~= events@);
    }
    crate::text::append_chars(&mut s.event_log, &log);
    let mut out: Vec<char> = Vec::new();
    push_str(&mut out, "{\"ok\":true,\"command\":");
    let mut ct: Vec<char> = Vec::new();
    push_command(&mut ct, cmd);
    proof {
        assert(ct@ =~= command_text(cmd));
    }
    push_json_string(&mut out, &ct);
    push_str(&mut out, ",\"events\":[");
    push_events_json(&mut out, &events);
    push_str(&mut out, "],\"book\":");
    let b = s.engine.book();
    push_book_json(&mut out, b);
    push_str(&mut out, "}");
    proof {
        let st = apply_spec(old(s).engine.state(), cmd).0;
        assert(out@ =~= applied_json(cmd, events@, st.bids, st.asks));
    }
    (string_of(&out), true)
}

} // verus!

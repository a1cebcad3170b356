//! Line-based text encoding of commands, and a stable text form of events.
//!
//! One command per line; `#` starts a comment; blank lines are ignored.
//!
//! ```text
//! submit buy limit 100 5     # side, type, [price], quantity
//! submit sell ioc 99 3
//! submit buy market 7
//! cancel 3
//! amend 3 - 4                # id, new price or '-' to keep, new open quantity
//! amend 3 101 4
//! ```
//!
//! Numbers are parsed at full width (`i64` prices, `u64` quantities) so that
//! out-of-range values reach the engine and are rejected there, the same way
//! they would be from any other source.
use vstd::prelude::*;

use crate::command::{CancelReason, Command, Event, Priority, RejectReason};
use crate::text::{dec, dec_int, digit, lemma_add_assoc, push_dec, push_dec_i64, push_str, string_of};
use crate::types::{OrderType, Side};

verus! {

/// Text of a side.
pub open spec fn side_text(s: Side) -> Seq<char> {
    match s {
        Side::Buy => "buy"@,
        Side::Sell => "sell"@,
    }
}

/// Text of an order type, with its price.
pub open spec fn kind_text(k: OrderType) -> Seq<char> {
    match k {
        OrderType::Limit { price } => "limit "@ + dec_int(price.0 as int),
        OrderType::Ioc { price } => "ioc "@ + dec_int(price.0 as int),
        OrderType::Market => "market"@,
    }
}

/// Journal form of a command.
pub open spec fn command_text(c: Command) -> Seq<char> {
    match c {
        Command::Submit { side, kind, qty } => "submit "@ + side_text(side) + " "@ + kind_text(kind)
            + " "@ + dec(qty.0 as nat),
        Command::Cancel { id } => "cancel "@ + dec(id.0 as nat),
        Command::Amend { id, price, qty } => match price {
            Some(p) => "amend "@ + dec(id.0 as nat) + " "@ + dec_int(p.0 as int) + " "@ + dec(
                qty.0 as nat,
            ),
            None => "amend "@ + dec(id.0 as nat) + " - "@ + dec(qty.0 as nat),
        },
    }
}

/// Text of a rejection reason.
pub open spec fn reject_text(r: RejectReason) -> Seq<char> {
    match r {
        RejectReason::ZeroQuantity => "zero-quantity"@,
        RejectReason::QuantityTooLarge => "quantity-too-large"@,
        RejectReason::PriceOutOfRange => "price-out-of-range"@,
        RejectReason::UnknownOrder => "unknown-order"@,
        RejectReason::AmendNoChange => "amend-no-change"@,
    }
}

/// Text of a cancel reason.
pub open spec fn cancel_text(r: CancelReason) -> Seq<char> {
    match r {
        CancelReason::User => "user"@,
        CancelReason::IocRemainder => "ioc-remainder"@,
        CancelReason::NoLiquidity => "no-liquidity"@,
    }
}

/// Text of an amend's priority.
pub open spec fn priority_text(p: Priority) -> Seq<char> {
    match p {
        Priority::Kept => "kept"@,
        Priority::Lost => "lost"@,
    }
}

/// Stable one-line form of an event, used by scenario files and the CLI.
pub open spec fn event_text(e: Event) -> Seq<char> {
    match e {
        Event::Accepted { id, side, kind, qty, seq } => "accepted id="@ + dec(id.0 as nat) + " "@
            + side_text(side) + " "@ + kind_text(kind) + " qty="@ + dec(qty.0 as nat) + " seq="@
            + dec(seq.0 as nat),
        Event::Rejected { id, reason } => match id {
            Some(id) => "rejected id="@ + dec(id.0 as nat) + " "@ + reject_text(reason),
            None => "rejected "@ + reject_text(reason),
        },
        Event::Amended { id, price, old_qty, qty, seq, priority } => "amended id="@ + dec(
            id.0 as nat,
        ) + " px="@ + dec_int(price.0 as int) + " qty="@ + dec(old_qty.0 as nat) + "->"@ + dec(
            qty.0 as nat,
        ) + " seq="@ + dec(seq.0 as nat) + " "@ + priority_text(priority),
        Event::Trade { maker, taker, taker_side, price, qty } => "trade maker="@ + dec(
            maker.0 as nat,
        ) + " taker="@ + dec(taker.0 as nat) + " "@ + side_text(taker_side) + " px="@ + dec_int(
            price.0 as int,
        ) + " qty="@ + dec(qty.0 as nat),
        Event::Filled { id } => "filled id="@ + dec(id.0 as nat),
        Event::Rested { id, side, price, qty, seq } => "rested id="@ + dec(id.0 as nat) + " "@
            + side_text(side) + " px="@ + dec_int(price.0 as int) + " qty="@ + dec(qty.0 as nat)
            + " seq="@ + dec(seq.0 as nat),
        Event::Cancelled { id, qty, reason } => "cancelled id="@ + dec(id.0 as nat) + " qty="@
            + dec(qty.0 as nat) + " "@ + cancel_text(reason),
    }
}

pub(crate) fn push_side(out: &mut Vec<char>, s: Side)
    ensures
        final(out)@ == old(out)@ + side_text(s),
{
    match s {
        Side::Buy => push_str(out, "buy"),
        Side::Sell => push_str(out, "sell"),
    }
}

pub(crate) fn push_kind(out: &mut Vec<char>, k: OrderType)
    ensures
        final(out)@ == old(out)@ + kind_text(k),
{
    let ghost o0 = out@;
    match k {
        OrderType::Limit { price } => {
            push_str(out, "limit ");
            push_dec_i64(out, price.0);
            proof {
                assert(out@ =~= o0 + kind_text(k));
            }
        },
        OrderType::Ioc { price } => {
            push_str(out, "ioc ");
            push_dec_i64(out, price.0);
            proof {
                assert(out@ =~= o0 + kind_text(k));
            }
        },
        OrderType::Market => push_str(out, "market"),
    }
}

pub(crate) fn push_reject(out: &mut Vec<char>, r: RejectReason)
    ensures
        final(out)@ == old(out)@ + reject_text(r),
{
    match r {
        RejectReason::ZeroQuantity => push_str(out, "zero-quantity"),
        RejectReason::QuantityTooLarge => push_str(out, "quantity-too-large"),
        RejectReason::PriceOutOfRange => push_str(out, "price-out-of-range"),
        RejectReason::UnknownOrder => push_str(out, "unknown-order"),
        RejectReason::AmendNoChange => push_str(out, "amend-no-change"),
    }
}

pub(crate) fn push_cancel_reason(out: &mut Vec<char>, r: CancelReason)
    ensures
        final(out)@ == old(out)@ + cancel_text(r),
{
    match r {
        CancelReason::User => push_str(out, "user"),
        CancelReason::IocRemainder => push_str(out, "ioc-remainder"),
        CancelReason::NoLiquidity => push_str(out, "no-liquidity"),
    }
}

pub(crate) fn push_priority(out: &mut Vec<char>, p: Priority)
    ensures
        final(out)@ == old(out)@ + priority_text(p),
{
    match p {
        Priority::Kept => push_str(out, "kept"),
        Priority::Lost => push_str(out, "lost"),
    }
}

/// Appends the journal form of `c`.
pub fn push_command(out: &mut Vec<char>, c: Command)
    ensures
        final(out)@ == old(out)@ + command_text(c),
{
    let ghost o0 = out@;
    match c {
        Command::Submit { side, kind, qty } => {
            push_str(out, "submit ");
            push_side(out, side);
            push_str(out, " ");
            push_kind(out, kind);
            push_str(out, " ");
            push_dec(out, qty.0);
        },
        Command::Cancel { id } => {
            push_str(out, "cancel ");
            push_dec(out, id.0);
        },
        Command::Amend { id, price, qty } => {
            push_str(out, "amend ");
            push_dec(out, id.0);
            match price {
                Some(p) => {
                    push_str(out, " ");
                    push_dec_i64(out, p.0);
                    push_str(out, " ");
                },
                None => push_str(out, " - "),
            }
            push_dec(out, qty.0);
        },
    }
    proof {
        assert(out@ =~= o0 + command_text(c));
    }
}

/// Appends the stable text of `e`.
#[verifier::rlimit(40)]
pub fn push_event(out: &mut Vec<char>, e: Event)
    ensures
        final(out)@ == old(out)@ + event_text(e),
{
    broadcast use lemma_add_assoc;
    match e {
        Event::Accepted { id, side, kind, qty, seq } => {
            push_str(out, "accepted id=");
            push_dec(out, id.0);
            push_str(out, " ");
            push_side(out, side);
            push_str(out, " ");
            push_kind(out, kind);
            push_str(out, " qty=");
            push_dec(out, qty.0);
            push_str(out, " seq=");
            push_dec(out, seq.0);
        },
        Event::Rejected { id, reason } => {
            match id {
                Some(id) => {
                    push_str(out, "rejected id=");
                    push_dec(out, id.0);
                    push_str(out, " ");
                },
                None => push_str(out, "rejected "),
            }
            push_reject(out, reason);
        },
        Event::Amended { id, price, old_qty, qty, seq, priority } => {
            push_str(out, "amended id=");
            push_dec(out, id.0);
            push_str(out, " px=");
            push_dec_i64(out, price.0);
            push_str(out, " qty=");
            push_dec(out, old_qty.0);
            push_str(out, "->");
            push_dec(out, qty.0);
            push_str(out, " seq=");
            push_dec(out, seq.0);
            push_str(out, " ");
            push_priority(out, priority);
        },
        Event::Trade { maker, taker, taker_side, price, qty } => {
            push_str(out, "trade maker=");
            push_dec(out, maker.0);
            push_str(out, " taker=");
            push_dec(out, taker.0);
            push_str(out, " ");
            push_side(out, taker_side);
            push_str(out, " px=");
            push_dec_i64(out, price.0);
            push_str(out, " qty=");
            push_dec(out, qty.0);
        },
        Event::Filled { id } => {
            push_str(out, "filled id=");
            push_dec(out, id.0);
        },
        Event::Rested { id, side, price, qty, seq } => {
            push_str(out, "rested id=");
            push_dec(out, id.0);
            push_str(out, " ");
            push_side(out, side);
            push_str(out, " px=");
            push_dec_i64(out, price.0);
            push_str(out, " qty=");
            push_dec(out, qty.0);
            push_str(out, " seq=");
            push_dec(out, seq.0);
        },
        Event::Cancelled { id, qty, reason } => {
            push_str(out, "cancelled id=");
            push_dec(out, id.0);
            push_str(out, " qty=");
            push_dec(out, qty.0);
            push_str(out, " ");
            push_cancel_reason(out, reason);
        },
    }
}

impl Command {
    /// Journal form; parsing it gives the command back.
    pub fn text(&self) -> (s: String)
        ensures
            s@ == command_text(*self),
    {
        let mut out: Vec<char> = Vec::new();
        push_command(&mut out, *self);
        proof {
            assert(out@ =~= command_text(*self));
        }
        string_of(&out)
    }
}

impl Event {
    /// Stable one-line form used by scenario files and the CLI.
    pub fn text(&self) -> (s: String)
        ensures
            s@ == event_text(*self),
    {
        let mut out: Vec<char> = Vec::new();
        push_event(&mut out, *self);
        proof {
            assert(out@ =~= event_text(*self));
        }
        string_of(&out)
    }
}

impl Side {
    /// Text form: `buy` or `sell`.
    pub fn text(&self) -> (s: String)
        ensures
            s@ == side_text(*self),
    {
        let mut out: Vec<char> = Vec::new();
        push_side(&mut out, *self);
        proof {
            assert(out@ =~= side_text(*self));
        }
        string_of(&out)
    }
}

impl OrderType {
    /// Text form: the type with its limit price: `limit 101`, `ioc 99`, `market`.
    pub fn text(&self) -> (s: String)
        ensures
            s@ == kind_text(*self),
    {
        let mut out: Vec<char> = Vec::new();
        push_kind(&mut out, *self);
        proof {
            assert(out@ =~= kind_text(*self));
        }
        string_of(&out)
    }
}

impl RejectReason {
    /// Text form: the reason as events print it.
    pub fn text(&self) -> (s: String)
        ensures
            s@ == reject_text(*self),
    {
        let mut out: Vec<char> = Vec::new();
        push_reject(&mut out, *self);
        proof {
            assert(out@ =~= reject_text(*self));
        }
        string_of(&out)
    }
}

impl CancelReason {
    /// Text form: the reason as events print it.
    pub fn text(&self) -> (s: String)
        ensures
            s@ == cancel_text(*self),
    {
        let mut out: Vec<char> = Vec::new();
        push_cancel_reason(&mut out, *self);
        proof {
            assert(out@ =~= cancel_text(*self));
        }
        string_of(&out)
    }
}

impl Priority {
    /// Text form: `kept` or `lost`.
    pub fn text(&self) -> (s: String)
        ensures
            s@ == priority_text(*self),
    {
        let mut out: Vec<char> = Vec::new();
        push_priority(&mut out, *self);
        proof {
            assert(out@ =~= priority_text(*self));
        }
        string_of(&out)
    }
}

/// What was wrong with a journal line.
#[derive(Clone, Debug, PartialEq, Eq)]
pub enum ParseErrorKind {
    /// The first word is not a command.
    UnknownCommand(String),
    /// Expected `buy` or `sell`.
    UnknownSide(String),
    /// Expected `limit`, `ioc` or `market`.
    UnknownOrderType(String),
    /// A field was missing.
    Missing(&'static str),
    /// A field was not a number of the expected type.
    BadNumber {
        /// Field name.
        field: &'static str,
        /// Text found.
        text: String,
    },
    /// Extra text after a complete command.
    Trailing(String),
}

/// A journal parse failure with its 1-based line number.
#[derive(Clone, Debug, PartialEq, Eq)]
pub struct ParseError {
    /// Line number, starting at 1.
    pub line: usize,
    /// What went wrong.
    pub kind: ParseErrorKind,
}

/// A parse error as text values.
pub enum ParseFault {
    UnknownCommand(Seq<char>),
    UnknownSide(Seq<char>),
    UnknownOrderType(Seq<char>),
    Missing(Seq<char>),
    BadNumber(Seq<char>, Seq<char>),
    Trailing(Seq<char>),
}

impl View for ParseErrorKind {
    type V = ParseFault;

    open spec fn view(&self) -> ParseFault {
        match self {
            ParseErrorKind::UnknownCommand(w) => ParseFault::UnknownCommand(w@),
            ParseErrorKind::UnknownSide(w) => ParseFault::UnknownSide(w@),
            ParseErrorKind::UnknownOrderType(w) => ParseFault::UnknownOrderType(w@),
            ParseErrorKind::Missing(f) => ParseFault::Missing(f@),
            ParseErrorKind::BadNumber { field, text } => ParseFault::BadNumber(field@, text@),
            ParseErrorKind::Trailing(w) => ParseFault::Trailing(w@),
        }
    }
}

/// ASCII whitespace: space, tab, line feed, form feed, carriage return.
pub open spec fn is_space(c: char) -> bool {
    c == ' ' || c == '\t' || c == '\n' || c == '\x0C' || c == '\r'
}

/// The part of a line before its first `#`.
pub open spec fn strip_comment(s: Seq<char>) -> Seq<char>
    decreases s.len(),
{
    if s.len() == 0 {
        s
    } else if s[0] == '#' {
        Seq::empty()
    } else {
        seq![s[0]] + strip_comment(s.drop_first())
    }
}

/// Number of leading characters of `s` that are not whitespace.
pub open spec fn word_len(s: Seq<char>) -> nat
    decreases s.len(),
{
    if s.len() == 0 || is_space(s[0]) {
        0
    } else {
        1 + word_len(s.drop_first())
    }
}

pub proof fn lemma_word_len(s: Seq<char>)
    ensures
        word_len(s) <= s.len(),
        forall|i: int| 0 <= i < word_len(s) ==> !is_space(#[trigger] s[i]),
        word_len(s) < s.len() ==> is_space(s[word_len(s) as int]),
    decreases s.len(),
{
    if s.len() > 0 && !is_space(s[0]) {
        lemma_word_len(s.drop_first());
        assert forall|i: int| 0 <= i < word_len(s) implies !is_space(#[trigger] s[i]) by {
            if i > 0 {
                assert(s[i] == s.drop_first()[i - 1]);
            }
        }
    }
}

/// The words of `s`: maximal runs of characters that are not whitespace.
pub open spec fn words(s: Seq<char>) -> Seq<Seq<char>>
    decreases s.len(),
{
    if s.len() == 0 {
        Seq::empty()
    } else if is_space(s[0]) {
        words(s.drop_first())
    } else {
        let n = word_len(s) as int;
        proof {
            lemma_word_len(s);
        }
        seq![s.take(n)] + words(s.skip(n))
    }
}

pub open spec fn is_digit(c: char) -> bool {
    '0' <= c && c <= '9'
}

pub open spec fn all_digits(s: Seq<char>) -> bool {
    forall|i: int| 0 <= i < s.len() ==> is_digit(#[trigger] s[i])
}

/// The number the decimal digits `s` stand for.
pub open spec fn digits_value(s: Seq<char>) -> nat
    decreases s.len(),
{
    if s.len() == 0 {
        0
    } else {
        digits_value(s.drop_last()) * 10 + ((s.last() as u32) - ('0' as u32)) as nat
    }
}

/// `u64`'s `FromStr`: an optional `+`, then one or more decimal digits whose
/// value fits.
pub open spec fn parse_u64_spec(w: Seq<char>) -> Option<u64> {
    let ds = if w.len() > 0 && w[0] == '+' {
        w.drop_first()
    } else {
        w
    };
    if ds.len() > 0 && all_digits(ds) && digits_value(ds) <= u64::MAX {
        Some(digits_value(ds) as u64)
    } else {
        None
    }
}

/// `i64`'s `FromStr`: an optional `+` or `-`, then one or more decimal
/// digits whose signed value fits.
pub open spec fn parse_i64_spec(w: Seq<char>) -> Option<i64> {
    let neg = w.len() > 0 && w[0] == '-';
    let ds = if w.len() > 0 && (w[0] == '+' || w[0] == '-') {
        w.drop_first()
    } else {
        w
    };
    if ds.len() > 0 && all_digits(ds) {
        if neg && digits_value(ds) <= 0x8000_0000_0000_0000 {
            Some((-(digits_value(ds) as int)) as i64)
        } else if !neg && digits_value(ds) <= 0x7fff_ffff_ffff_ffff {
            Some(digits_value(ds) as i64)
        } else {
            None
        }
    } else {
        None
    }
}

/// Word `i` as an unsigned number named `field`.
pub open spec fn u64_at(ws: Seq<Seq<char>>, i: int, field: Seq<char>) -> Result<u64, ParseFault> {
    if i >= ws.len() {
        Err(ParseFault::Missing(field))
    } else {
        match parse_u64_spec(ws[i]) {
            Some(v) => Ok(v),
            None => Err(ParseFault::BadNumber(field, ws[i])),
        }
    }
}

/// Word `i` as a signed number named `field`.
pub open spec fn i64_at(ws: Seq<Seq<char>>, i: int, field: Seq<char>) -> Result<i64, ParseFault> {
    if i >= ws.len() {
        Err(ParseFault::Missing(field))
    } else {
        match parse_i64_spec(ws[i]) {
            Some(v) => Ok(v),
            None => Err(ParseFault::BadNumber(field, ws[i])),
        }
    }
}

/// A complete command of `n` words, unless more words follow.
pub open spec fn finish(ws: Seq<Seq<char>>, n: int, c: Command) -> Result<Option<Command>, ParseFault> {
    if ws.len() > n {
        Err(ParseFault::Trailing(ws[n]))
    } else {
        Ok(Some(c))
    }
}

/// The grammar of a command line, given its words.
pub open spec fn parse_words(ws: Seq<Seq<char>>) -> Result<Option<Command>, ParseFault> {
    if ws.len() == 0 {
        Ok(None)
    } else if ws[0] == "submit"@ {
        if ws.len() < 2 {
            Err(ParseFault::Missing("side"@))
        } else if ws[1] != "buy"@ && ws[1] != "sell"@ {
            Err(ParseFault::UnknownSide(ws[1]))
        } else {
            let side = if ws[1] == "buy"@ {
                Side::Buy
            } else {
                Side::Sell
            };
            if ws.len() < 3 {
                Err(ParseFault::Missing("order type"@))
            } else if ws[2] == "market"@ {
                match u64_at(ws, 3, "quantity"@) {
                    Err(e) => Err(e),
                    Ok(q) => finish(
                        ws,
                        4,
                        Command::Submit { side, kind: OrderType::Market, qty: crate::types::Qty(q) },
                    ),
                }
            } else if ws[2] == "limit"@ || ws[2] == "ioc"@ {
                match i64_at(ws, 3, "price"@) {
                    Err(e) => Err(e),
                    Ok(p) => match u64_at(ws, 4, "quantity"@) {
                        Err(e) => Err(e),
                        Ok(q) => {
                            let price = crate::types::Price(p);
                            let kind = if ws[2] == "limit"@ {
                                OrderType::Limit { price }
                            } else {
                                OrderType::Ioc { price }
                            };
                            finish(ws, 5, Command::Submit { side, kind, qty: crate::types::Qty(q) })
                        },
                    },
                }
            } else {
                Err(ParseFault::UnknownOrderType(ws[2]))
            }
        }
    } else if ws[0] == "cancel"@ {
        match u64_at(ws, 1, "order id"@) {
            Err(e) => Err(e),
            Ok(id) => finish(ws, 2, Command::Cancel { id: crate::types::OrderId(id) }),
        }
    } else if ws[0] == "amend"@ {
        match u64_at(ws, 1, "order id"@) {
            Err(e) => Err(e),
            Ok(id) => if ws.len() < 3 {
                Err(ParseFault::Missing("price"@))
            } else {
                let price = if ws[2] == "-"@ {
                    Ok(None)
                } else {
                    match parse_i64_spec(ws[2]) {
                        Some(p) => Ok(Some(crate::types::Price(p))),
                        None => Err(ParseFault::BadNumber("price"@, ws[2])),
                    }
                };
                match price {
                    Err(e) => Err(e),
                    Ok(price) => match u64_at(ws, 3, "quantity"@) {
                        Err(e) => Err(e),
                        Ok(q) => finish(
                            ws,
                            4,
                            Command::Amend {
                                id: crate::types::OrderId(id),
                                price,
                                qty: crate::types::Qty(q),
                            },
                        ),
                    },
                }
            }
        }
    } else {
        Err(ParseFault::UnknownCommand(ws[0]))
    }
}

/// What a journal line says: `None` for a blank or comment-only line.
pub open spec fn parse_line_spec(line: Seq<char>) -> Result<Option<Command>, ParseFault> {
    parse_words(words(strip_comment(line)))
}

/// Cutting the comment of `a + b`: the comment of `a` when it has one,
/// else `a` and the cut of `b`.
proof fn lemma_strip_comment_add(a: Seq<char>, b: Seq<char>)
    ensures
        strip_comment(a + b) == (if a.contains('#') {
            strip_comment(a)
        } else {
            a + strip_comment(b)
        }),
    decreases a.len(),
{
    if a.len() == 0 {
        assert(a + b =~= b);
        assert(a + strip_comment(b) =~= strip_comment(b));
    } else {
        let t = a.drop_first();
        lemma_strip_comment_add(t, b);
        assert((a + b).drop_first() =~= t + b);
        assert((a + b)[0] == a[0]);
        if a[0] == '#' {
            assert(a.contains('#'));
        } else {
            assert(a.contains('#') <==> t.contains('#')) by {
                if a.contains('#') {
                    let i = choose|i: int| 0 <= i < a.len() && a[i] == '#';
                    assert(t[i - 1] == a[i]);
                }
                if t.contains('#') {
                    let i = choose|i: int| 0 <= i < t.len() && t[i] == '#';
                    assert(a[i + 1] == t[i]);
                }
            }
            if !a.contains('#') {
                assert(seq![a[0]] + (t + strip_comment(b)) =~= a + strip_comment(b));
            }
        }
    }
}

/// A word does not reach into whitespace appended after it.
proof fn lemma_word_len_push(s: Seq<char>, c: char)
    requires
        is_space(c),
    ensures
        word_len(s.push(c)) == word_len(s),
    decreases s.len(),
{
    if s.len() > 0 && !is_space(s[0]) {
        assert(s.push(c).drop_first() =~= s.drop_first().push(c));
        lemma_word_len_push(s.drop_first(), c);
    }
}

/// Whitespace appended to a text adds no word.
proof fn lemma_words_push(s: Seq<char>, c: char)
    requires
        is_space(c),
    ensures
        words(s.push(c)) == words(s),
    decreases s.len(),
{
    assert(s.push(c)[0] == if s.len() == 0 {
        c
    } else {
        s[0]
    });
    if s.len() == 0 {
        assert(s.push(c).drop_first() =~= Seq::<char>::empty());
        assert(words(Seq::<char>::empty()) == Seq::<Seq<char>>::empty());
        assert(s =~= Seq::<char>::empty());
    } else if is_space(s[0]) {
        assert(s.push(c).drop_first() =~= s.drop_first().push(c));
        lemma_words_push(s.drop_first(), c);
    } else {
        lemma_word_len_push(s, c);
        lemma_word_len(s);
        let n = word_len(s) as int;
        assert(s.push(c).take(n) =~= s.take(n));
        assert(s.push(c).skip(n) =~= s.skip(n).push(c));
        lemma_words_push(s.skip(n), c);
    }
}

/// Exactly the ASCII whitespace characters separate words: one of them
/// alone makes no word, and any other character alone is a word.
pub proof fn lemma_separators(c: char)
    ensures
        (c == ' ' || c == '\t' || c == '\n' || c == '\x0C' || c == '\r') ==> words(seq![c]) == Seq::<Seq<char>>::empty(),
        !(c == ' ' || c == '\t' || c == '\n' || c == '\x0C' || c == '\r') ==> words(seq![c]) == seq![seq![c]],
{
    let s = seq![c];
    assert(s[0] == c);
    assert(s.drop_first() =~= Seq::<char>::empty());
    assert(words(Seq::<char>::empty()) == Seq::<Seq<char>>::empty());
    if !is_space(c) {
        lemma_word_len(s);
        assert(word_len(s.drop_first()) == 0);
        assert(word_len(s) == 1);
        assert(s.take(1) =~= s);
        assert(s.skip(1) =~= Seq::<char>::empty());
        assert(seq![s] + Seq::<Seq<char>>::empty() =~= seq![s]);
    }
}

/// A line means the same with ASCII whitespace appended to it: a space,
/// tab, line feed, form feed or carriage return, so a journal saved with
/// CRLF line endings reads as one with LF endings.
pub proof fn lemma_parse_line_trailing_space(line: Seq<char>, c: char)
    requires
        c == ' ' || c == '\t' || c == '\n' || c == '\x0C' || c == '\r',
    ensures
        parse_line_spec(line.push(c)) == parse_line_spec(line),
{
    assert(line.push(c) =~= line + seq![c]);
    lemma_strip_comment_add(line, seq![c]);
    if !line.contains('#') {
        assert(seq![c].drop_first() =~= Seq::<char>::empty());
        assert(seq![c][0] == c);
        assert(strip_comment(Seq::<char>::empty()) == Seq::<char>::empty());
        assert(strip_comment(seq![c]) == seq![c] + strip_comment(Seq::<char>::empty()));
        assert(strip_comment(seq![c]) =~= seq![c]);
        lemma_strip_comment_add(line, Seq::<char>::empty());
        assert(line + Seq::<char>::empty() =~= line);
        assert(strip_comment(line) == line + strip_comment(Seq::<char>::empty()));
        assert(line + strip_comment(Seq::<char>::empty()) =~= line);
        assert(strip_comment(line.push(c)) == line.push(c));
        lemma_words_push(line, c);
    }
}

/// Number of leading characters of `s` before the first line feed.
pub open spec fn line_len(s: Seq<char>) -> nat
    decreases s.len(),
{
    if s.len() == 0 || s[0] == '\n' {
        0
    } else {
        1 + line_len(s.drop_first())
    }
}

pub proof fn lemma_line_len(s: Seq<char>)
    ensures
        line_len(s) <= s.len(),
        forall|i: int| 0 <= i < line_len(s) ==> #[trigger] s[i] != '\n',
        line_len(s) < s.len() ==> s[line_len(s) as int] == '\n',
    decreases s.len(),
{
    if s.len() > 0 && s[0] != '\n' {
        lemma_line_len(s.drop_first());
        assert forall|i: int| 0 <= i < line_len(s) implies #[trigger] s[i] != '\n' by {
            if i > 0 {
                assert(s[i] == s.drop_first()[i - 1]);
            }
        }
    }
}

/// The lines of a text: split at line feeds, with no empty last line after
/// a final line feed. A carriage return before a line feed stays on its
/// line, where it is whitespace.
pub open spec fn lines_spec(s: Seq<char>) -> Seq<Seq<char>>
    decreases s.len(),
{
    if s.len() == 0 {
        Seq::empty()
    } else {
        let n = line_len(s) as int;
        proof {
            lemma_line_len(s);
        }
        if n == s.len() {
            seq![s]
        } else {
            seq![s.take(n)] + lines_spec(s.skip(n + 1))
        }
    }
}

/// Parsing lines in order: the commands of the non-blank lines, or the
/// number (from 1) and error of the first malformed line.
pub open spec fn parse_lines(ls: Seq<Seq<char>>) -> Result<Seq<Command>, (int, ParseFault)>
    decreases ls.len(),
{
    if ls.len() == 0 {
        Ok(Seq::empty())
    } else {
        match parse_line_spec(ls[0]) {
            Err(k) => Err((1, k)),
            Ok(c) => match parse_lines(ls.drop_first()) {
                Err((n, k)) => Err((n + 1, k)),
                Ok(cs) => Ok(
                    match c {
                        Some(c) => seq![c] + cs,
                        None => cs,
                    },
                ),
            },
        }
    }
}

fn is_space_char(c: char) -> (b: bool)
    ensures
        b == is_space(c),
{
    c == ' ' || c == '\t' || c == '\n' || c == '\x0C' || c == '\r'
}

/// Where the comment of `cs` starts (its length if it has none).
fn comment_start(cs: &Vec<char>) -> (k: usize)
    ensures
        k <= cs@.len(),
        strip_comment(cs@) == cs@.take(k as int),
{
    let mut i: usize = 0;
    proof {
        assert(cs@.skip(0) =~= cs@);
        assert(cs@.take(0) + strip_comment(cs@) =~= strip_comment(cs@));
    }
    while i < cs.len()
        invariant
            0 <= i <= cs@.len(),
            strip_comment(cs@) == cs@.take(i as int) + strip_comment(cs@.skip(i as int)),
        decreases cs@.len() - i,
    {
        let ghost t = cs@.skip(i as int);
        if cs[i] == '#' {
            proof {
                assert(t[0] == '#');
                assert(cs@.take(i as int) + Seq::<char>::empty() =~= cs@.take(i as int));
            }
            return i;
        }
        proof {
            assert(t[0] == cs@[i as int]);
            assert(t.drop_first() =~= cs@.skip(i as int + 1));
            assert(cs@.take(i as int) + (seq![t[0]] + strip_comment(t.drop_first())) =~= cs@.take(
                i as int + 1,
            ) + strip_comment(cs@.skip(i as int + 1)));
        }
        i = i + 1;
    }
    proof {
        assert(cs@.skip(i as int) =~= Seq::<char>::empty());
        assert(cs@.take(i as int) + Seq::<char>::empty() =~= cs@.take(i as int));
    }
    i
}

/// A run that starts a sequence and ends at whitespace or at its end is the
/// sequence's leading word.
proof fn lemma_word_end(t: Seq<char>, n: int)
    requires
        0 < n <= t.len(),
        forall|i: int| 0 <= i < n ==> !is_space(#[trigger] t[i]),
        n < t.len() ==> is_space(t[n]),
    ensures
        word_len(t) == n,
{
    lemma_word_len(t);
    if word_len(t) < n {
        assert(is_space(t[word_len(t) as int]));
    }
    if word_len(t) > n {
        assert(!is_space(t[n]));
    }
}

/// The characters `cs[lo..hi]`.
fn slice_chars(cs: &Vec<char>, lo: usize, hi: usize) -> (r: Vec<char>)
    requires
        lo <= hi <= cs@.len(),
    ensures
        r@ == cs@.subrange(lo as int, hi as int),
{
    let mut out: Vec<char> = Vec::new();
    let mut i = lo;
    while i < hi
        invariant
            lo <= i <= hi <= cs@.len(),
            out@ == cs@.subrange(lo as int, i as int),
        decreases hi - i,
    {
        out.push(cs[i]);
        proof {
            assert(out@ =~= cs@.subrange(lo as int, i as int + 1));
        }
        i = i + 1;
    }
    out
}

/// The words of `cs[..end]`.
fn split_words(cs: &Vec<char>, end: usize) -> (ws: Vec<Vec<char>>)
    requires
        end <= cs@.len(),
    ensures
        ws@.len() == words(cs@.take(end as int)).len(),
        forall|k: int| 0 <= k < ws@.len() ==> (#[trigger] ws@[k])@ == words(cs@.take(end as int))[k],
{
    let ghost s = cs@.take(end as int);
    let ghost mut acc: Seq<Seq<char>> = Seq::empty();
    let mut out: Vec<Vec<char>> = Vec::new();
    let mut i: usize = 0;
    proof {
        assert(s.skip(0) =~= s);
        assert(acc + words(s) =~= words(s));
    }
    while i < end
        invariant
            s == cs@.take(end as int),
            end <= cs@.len(),
            0 <= i <= end,
            words(s) == acc + words(s.skip(i as int)),
            out@.len() == acc.len(),
            forall|k: int| 0 <= k < out@.len() ==> (#[trigger] out@[k])@ == acc[k],
        decreases end - i,
    {
        let ghost t = s.skip(i as int);
        if is_space_char(cs[i]) {
            proof {
                assert(t[0] == cs@[i as int]);
                assert(t.drop_first() =~= s.skip(i as int + 1));
            }
            i = i + 1;
        } else {
            let mut j = i;
            while j < end && !is_space_char(cs[j])
                invariant
                    s == cs@.take(end as int),
                    end <= cs@.len(),
                    i <= j <= end,
                    forall|x: int| i <= x < j ==> !is_space(#[trigger] cs@[x]),
                decreases end - j,
            {
                j = j + 1;
            }
            let w = slice_chars(cs, i, j);
            proof {
                let n = (j - i) as int;
                assert(t[0] == cs@[i as int]);
                assert forall|x: int| 0 <= x < n implies !is_space(#[trigger] t[x]) by {
                    assert(t[x] == cs@[i + x]);
                }
                if n < t.len() {
                    assert(t[n] == cs@[j as int]);
                }
                lemma_word_end(t, n);
                assert(t.take(n) =~= w@);
                assert(t.skip(n) =~= s.skip(j as int));
                assert(acc.push(w@) + words(s.skip(j as int)) =~= acc + (seq![w@] + words(
                    s.skip(j as int),
                )));
                acc = acc.push(w@);
            }
            out.push(w);
            i = j;
        }
    }
    proof {
        assert(s.skip(i as int) =~= Seq::<char>::empty());
        assert(acc + Seq::<Seq<char>>::empty() =~= acc);
    }
    out
}

/// Whether `w` is the text `lit`.
fn word_is(w: &Vec<char>, lit: &str) -> (b: bool)
    ensures
        b == (w@ == lit@),
{
    let l = crate::text::chars_of(lit);
    if w.len() != l.len() {
        return false;
    }
    let mut i: usize = 0;
    while i < w.len()
        invariant
            w@.len() == l@.len(),
            l@ == lit@,
            0 <= i <= w@.len(),
            forall|k: int| 0 <= k < i ==> w@[k] == l@[k],
        decreases w@.len() - i,
    {
        if w[i] != l[i] {
            return false;
        }
        i = i + 1;
    }
    proof {
        assert(w@ =~= l@);
    }
    true
}

proof fn lemma_digits_take(s: Seq<char>, k: int)
    requires
        0 <= k < s.len(),
    ensures
        digits_value(s.take(k + 1)) == digits_value(s.take(k)) * 10 + ((s[k] as u32) - ('0' as u32)) as nat,
{
    assert(s.take(k + 1).drop_last() =~= s.take(k));
}

proof fn lemma_digits_mono(s: Seq<char>, k: int)
    requires
        all_digits(s),
        0 <= k <= s.len(),
    ensures
        digits_value(s.take(k)) <= digits_value(s),
    decreases s.len() - k,
{
    if k < s.len() {
        lemma_digits_take(s, k);
        assert(is_digit(s[k]));
        lemma_digits_mono(s, k + 1);
    } else {
        assert(s.take(k) =~= s);
    }
}

/// The value of the digits `w[start..]`, if they are one or more decimal
/// digits whose value is at most `limit`.
fn digits_up_to(w: &Vec<char>, start: usize, limit: u64) -> (r: Option<u64>)
    requires
        start <= w@.len(),
    ensures
        ({
            let ds = w@.skip(start as int);
            r == (if ds.len() > 0 && all_digits(ds) && digits_value(ds) <= limit {
                Some(digits_value(ds) as u64)
            } else {
                None::<u64>
            })
        }),
{
    let ghost ds = w@.skip(start as int);
    if start == w.len() {
        return None;
    }
    let mut acc: u64 = 0;
    let mut i = start;
    proof {
        assert(ds.take(0) =~= Seq::<char>::empty());
    }
    while i < w.len()
        invariant
            ds == w@.skip(start as int),
            start <= i <= w@.len(),
            all_digits(ds.take(i - start)),
            acc == digits_value(ds.take(i - start)),
            acc <= limit,
        decreases w@.len() - i,
    {
        let c = w[i];
        let ghost k = (i - start) as int;
        proof {
            assert(ds[k] == w@[i as int]);
        }
        if !('0' <= c && c <= '9') {
            proof {
                assert(!is_digit(ds[k]));
            }
            return None;
        }
        let d = (c as u32 - '0' as u32) as u64;
        proof {
            lemma_digits_take(ds, k);
            assert(all_digits(ds.take(k + 1))) by {
                assert forall|x: int| 0 <= x < k + 1 implies is_digit(#[trigger] ds.take(k + 1)[x]) by {
                    if x < k {
                        assert(ds.take(k + 1)[x] == ds.take(k)[x]);
                    }
                }
            }
        }
        let next = match acc.checked_mul(10) {
            None => None,
            Some(m) => m.checked_add(d),
        };
        match next {
            Some(v) if v <= limit => {
                acc = v;
            },
            _ => {
                proof {
                    if all_digits(ds) {
                        lemma_digits_mono(ds, k + 1);
                    }
                }
                return None;
            },
        }
        i = i + 1;
    }
    proof {
        assert(ds.take(i - start) =~= ds);
    }
    Some(acc)
}

/// Parses an unsigned decimal number as `u64`'s `FromStr` does.
fn parse_u64(w: &Vec<char>) -> (r: Option<u64>)
    ensures
        r == parse_u64_spec(w@),
{
    let start: usize = if w.len() > 0 && w[0] == '+' {
        1
    } else {
        0
    };
    proof {
        assert(w@.skip(0) =~= w@);
        assert(w@.skip(1) =~= w@.drop_first());
    }
    digits_up_to(w, start, u64::MAX)
}

/// Parses a signed decimal number as `i64`'s `FromStr` does.
fn parse_i64(w: &Vec<char>) -> (r: Option<i64>)
    ensures
        r == parse_i64_spec(w@),
{
    let neg = w.len() > 0 && w[0] == '-';
    let start: usize = if w.len() > 0 && (w[0] == '+' || w[0] == '-') {
        1
    } else {
        0
    };
    proof {
        assert(w@.skip(0) =~= w@);
        assert(w@.skip(1) =~= w@.drop_first());
    }
    if neg {
        match digits_up_to(w, start, 0x8000_0000_0000_0000u64) {
            None => None,
            Some(m) => {
                if m == 0x8000_0000_0000_0000u64 {
                    Some(i64::MIN)
                } else {
                    Some(-(m as i64))
                }
            },
        }
    } else {
        match digits_up_to(w, start, 0x7fff_ffff_ffff_ffffu64) {
            None => None,
            Some(m) => Some(m as i64),
        }
    }
}

/// Word `i` as an unsigned number named `field`.
fn u64_field(ws: &Vec<Vec<char>>, i: usize, field: &'static str, Ghost(wv): Ghost<Seq<Seq<char>>>) -> (r: Result<u64, ParseErrorKind>)
    requires
        ws@.len() == wv.len(),
        forall|k: int| 0 <= k < ws@.len() ==> (#[trigger] ws@[k])@ == wv[k],
    ensures
        match r {
            Ok(v) => u64_at(wv, i as int, field@) == Ok::<u64, ParseFault>(v),
            Err(k) => u64_at(wv, i as int, field@) == Err::<u64, ParseFault>(k@),
        },
{
    if i >= ws.len() {
        return Err(ParseErrorKind::Missing(field));
    }
    match parse_u64(&ws[i]) {
        Some(v) => Ok(v),
        None => Err(ParseErrorKind::BadNumber { field, text: string_of(&ws[i]) }),
    }
}

/// Word `i` as a signed number named `field`.
fn i64_field(ws: &Vec<Vec<char>>, i: usize, field: &'static str, Ghost(wv): Ghost<Seq<Seq<char>>>) -> (r: Result<i64, ParseErrorKind>)
    requires
        ws@.len() == wv.len(),
        forall|k: int| 0 <= k < ws@.len() ==> (#[trigger] ws@[k])@ == wv[k],
    ensures
        match r {
            Ok(v) => i64_at(wv, i as int, field@) == Ok::<i64, ParseFault>(v),
            Err(k) => i64_at(wv, i as int, field@) == Err::<i64, ParseFault>(k@),
        },
{
    if i >= ws.len() {
        return Err(ParseErrorKind::Missing(field));
    }
    match parse_i64(&ws[i]) {
        Some(v) => Ok(v),
        None => Err(ParseErrorKind::BadNumber { field, text: string_of(&ws[i]) }),
    }
}

/// A complete command of `n` words, unless more words follow.
fn finish_words(ws: &Vec<Vec<char>>, n: usize, c: Command, Ghost(wv): Ghost<Seq<Seq<char>>>) -> (r: Result<Option<Command>, ParseErrorKind>)
    requires
        ws@.len() == wv.len(),
        forall|k: int| 0 <= k < ws@.len() ==> (#[trigger] ws@[k])@ == wv[k],
    ensures
        match r {
            Ok(v) => finish(wv, n as int, c) == Ok::<Option<Command>, ParseFault>(v),
            Err(k) => finish(wv, n as int, c) == Err::<Option<Command>, ParseFault>(k@),
        },
{
    if ws.len() > n {
        Err(ParseErrorKind::Trailing(string_of(&ws[n])))
    } else {
        Ok(Some(c))
    }
}

/// The command the words `ws` form.
#[verifier::rlimit(60)]
fn parse_tokens(ws: &Vec<Vec<char>>, Ghost(wv): Ghost<Seq<Seq<char>>>) -> (r: Result<Option<Command>, ParseErrorKind>)
    requires
        ws@.len() == wv.len(),
        forall|k: int| 0 <= k < ws@.len() ==> (#[trigger] ws@[k])@ == wv[k],
    ensures
        match r {
            Ok(v) => parse_words(wv) == Ok::<Option<Command>, ParseFault>(v),
            Err(k) => parse_words(wv) == Err::<Option<Command>, ParseFault>(k@),
        },
{
    if ws.len() == 0 {
        return Ok(None);
    }
    let verb = &ws[0];
    if word_is(verb, "submit") {
        if ws.len() < 2 {
            return Err(ParseErrorKind::Missing("side"));
        }
        let side = if word_is(&ws[1], "buy") {
            Side::Buy
        } else if word_is(&ws[1], "sell") {
            Side::Sell
        } else {
            return Err(ParseErrorKind::UnknownSide(string_of(&ws[1])));
        };
        if ws.len() < 3 {
            return Err(ParseErrorKind::Missing("order type"));
        }
        let t = &ws[2];
        if word_is(t, "market") {
            let q = u64_field(ws, 3, "quantity", Ghost(wv))?;
            return finish_words(
                ws,
                4,
                Command::Submit { side, kind: OrderType::Market, qty: crate::types::Qty(q) },
                Ghost(wv),
            );
        }
        let is_limit = word_is(t, "limit");
        if is_limit || word_is(t, "ioc") {
            let p = i64_field(ws, 3, "price", Ghost(wv))?;
            let q = u64_field(ws, 4, "quantity", Ghost(wv))?;
            let price = crate::types::Price(p);
            let kind = if is_limit {
                OrderType::Limit { price }
            } else {
                OrderType::Ioc { price }
            };
            return finish_words(ws, 5, Command::Submit { side, kind, qty: crate::types::Qty(q) }, Ghost(wv));
        }
        return Err(ParseErrorKind::UnknownOrderType(string_of(t)));
    }
    if word_is(verb, "cancel") {
        let id = u64_field(ws, 1, "order id", Ghost(wv))?;
        return finish_words(ws, 2, Command::Cancel { id: crate::types::OrderId(id) }, Ghost(wv));
    }
    if word_is(verb, "amend") {
        let id = u64_field(ws, 1, "order id", Ghost(wv))?;
        if ws.len() < 3 {
            return Err(ParseErrorKind::Missing("price"));
        }
        let price = if word_is(&ws[2], "-") {
            None
        } else {
            match parse_i64(&ws[2]) {
                Some(p) => Some(crate::types::Price(p)),
                None => {
                    return Err(ParseErrorKind::BadNumber { field: "price", text: string_of(&ws[2]) });
                },
            }
        };
        let q = u64_field(ws, 3, "quantity", Ghost(wv))?;
        return finish_words(
            ws,
            4,
            Command::Amend { id: crate::types::OrderId(id), price, qty: crate::types::Qty(q) },
            Ghost(wv),
        );
    }
    Err(ParseErrorKind::UnknownCommand(string_of(verb)))
}

/// The command of a line given as characters.
fn parse_chars(cs: &Vec<char>) -> (r: Result<Option<Command>, ParseErrorKind>)
    ensures
        match r {
            Ok(c) => parse_line_spec(cs@) == Ok::<Option<Command>, ParseFault>(c),
            Err(k) => parse_line_spec(cs@) == Err::<Option<Command>, ParseFault>(k@),
        },
{
    let end = comment_start(cs);
    let ws = split_words(cs, end);
    parse_tokens(&ws, Ghost(words(cs@.take(end as int))))
}

/// Parses one line. Returns `Ok(None)` for blank and comment-only lines,
/// and the first problem found on the line otherwise.
pub fn parse_line(line: &str) -> (r: Result<Option<Command>, ParseErrorKind>)
    ensures
        match r {
            Ok(c) => parse_line_spec(line@) == Ok::<Option<Command>, ParseFault>(c),
            Err(k) => parse_line_spec(line@) == Err::<Option<Command>, ParseFault>(k@),
        },
{
    let cs = crate::text::chars_of(line);
    parse_chars(&cs)
}

/// Parses a whole journal, returning the first malformed line.
pub fn parse(text: &str) -> (r: Result<Vec<Command>, ParseError>)
    ensures
        match r {
            Ok(cmds) => parse_lines(lines_spec(text@)) == Ok::<Seq<Command>, (int, ParseFault)>(cmds@),
            Err(e) => parse_lines(lines_spec(text@)) == Err::<Seq<Command>, (int, ParseFault)>(
                (e.line as int, e.kind@),
            ),
        },
{
    let cs = crate::text::chars_of(text);
    let ghost s = cs@;
    let mut out: Vec<Command> = Vec::new();
    let mut start: usize = 0;
    let mut line_no: usize = 0;
    let ghost mut done: Seq<Seq<char>> = Seq::empty();
    proof {
        assert(s.skip(0) =~= s);
        assert(done + lines_spec(s) =~= lines_spec(s));
    }
    while start < cs.len()
        invariant
            s == cs@,
            s == text@,
            0 <= start <= s.len(),
            line_no == done.len(),
            line_no <= start,
            lines_spec(s) == done + lines_spec(s.skip(start as int)),
            parse_lines(done) == Ok::<Seq<Command>, (int, ParseFault)>(out@),
        decreases s.len() - start,
    {
        let mut end = start;
        while end < cs.len() && cs[end] != '\n'
            invariant
                s == cs@,
                start <= end <= s.len(),
                forall|x: int| start <= x < end ==> #[trigger] s[x] != '\n',
            decreases s.len() - end,
        {
            end = end + 1;
        }
        let line = slice_chars(&cs, start, end);
        let ghost t = s.skip(start as int);
        proof {
            lemma_line_len(t);
            let n = (end - start) as int;
            if line_len(t) < n {
                assert(t[line_len(t) as int] == s[start + line_len(t)]);
            }
            if line_len(t) > n {
                assert(t[n] == s[end as int]);
            }
            assert(line_len(t) == n);
            assert(t.take(n) =~= line@);
            if end < s.len() {
                assert(t.skip(n + 1) =~= s.skip(end as int + 1));
            } else {
                assert(t =~= line@);
            }
        }
        let parsed = parse_chars(&line);
        proof {
            lemma_parse_lines_push(done, line@);
        }
        let ghost rest = if end < s.len() {
            lines_spec(s.skip(end as int + 1))
        } else {
            Seq::<Seq<char>>::empty()
        };
        proof {
            assert(lines_spec(t) == seq![line@] + rest);
            assert(done + (seq![line@] + rest) =~= done.push(line@) + rest);
            lemma_parse_lines_add(done.push(line@), rest);
        }
        match parsed {
            Err(kind) => {
                let n = line_no + 1;
                proof {
                    assert(lines_spec(s) == done.push(line@) + rest);
                    assert(parse_line_spec(line@) == Err::<Option<Command>, ParseFault>(kind@));
                    assert(parse_lines(done.push(line@)) == Err::<Seq<Command>, (int, ParseFault)>(
                        (done.len() + 1int, kind@),
                    ));
                    assert(parse_lines(lines_spec(s)) == Err::<Seq<Command>, (int, ParseFault)>(
                        (done.len() + 1int, kind@),
                    ));
                }
                return Err(ParseError { line: n, kind });
            },
            Ok(c) => {
                if let Some(cmd) = c {
                    out.push(cmd);
                }
            },
        }
        proof {
            done = done.push(line@);
        }
        line_no = line_no + 1;
        if end < cs.len() {
            start = end + 1;
        } else {
            start = end;
            proof {
                assert(s.skip(start as int) =~= Seq::<char>::empty());
            }
        }
    }
    proof {
        assert(s.skip(start as int) =~= Seq::<char>::empty());
        assert(done + Seq::<Seq<char>>::empty() =~= done);
    }
    Ok(out)
}

/// Parsing two runs of lines one after the other.
proof fn lemma_parse_lines_add(a: Seq<Seq<char>>, b: Seq<Seq<char>>)
    ensures
        parse_lines(a + b) == (match parse_lines(a) {
            Err(e) => Err(e),
            Ok(cs) => match parse_lines(b) {
                Ok(rest) => Ok(cs + rest),
                Err((n, k)) => Err((n + a.len(), k)),
            },
        }),
    decreases a.len(),
{
    if a.len() == 0 {
        assert(a + b =~= b);
        if let Ok(rest) = parse_lines(b) {
            assert(Seq::<Command>::empty() + rest =~= rest);
        }
    } else {
        assert((a + b).drop_first() =~= a.drop_first() + b);
        assert((a + b)[0] == a[0]);
        lemma_parse_lines_add(a.drop_first(), b);
        if let Ok(Some(c)) = parse_line_spec(a[0]) {
            if let Ok(cs) = parse_lines(a.drop_first()) {
                if let Ok(rest) = parse_lines(b) {
                    assert(seq![c] + (cs + rest) =~= (seq![c] + cs) + rest);
                }
            }
        }
    }
}

/// Parsing one more line: the commands so far and the line's own command,
/// or the line's error under its number.
proof fn lemma_parse_lines_push(done: Seq<Seq<char>>, l: Seq<char>)
    ensures
        parse_lines(done.push(l)) == (match parse_lines(done) {
            Err(e) => Err(e),
            Ok(cs) => match parse_line_spec(l) {
                Err(k) => Err((done.len() + 1int, k)),
                Ok(None) => Ok(cs),
                Ok(Some(c)) => Ok(cs.push(c)),
            },
        }),
    decreases done.len(),
{
    if done.len() == 0 {
        assert(done.push(l) =~= seq![l]);
        assert(seq![l].drop_first() =~= Seq::<Seq<char>>::empty());
        if let Ok(Some(c)) = parse_line_spec(l) {
            assert(seq![c] + Seq::<Command>::empty() =~= Seq::<Command>::empty().push(c));
        }
    } else {
        assert(done.push(l).drop_first() =~= done.drop_first().push(l));
        assert(done.push(l)[0] == done[0]);
        lemma_parse_lines_push(done.drop_first(), l);
        if let Ok(Some(c0)) = parse_line_spec(done[0]) {
            if let Ok(cs) = parse_lines(done.drop_first()) {
                if let Ok(Some(c)) = parse_line_spec(l) {
                    assert(seq![c0] + cs.push(c) =~= (seq![c0] + cs).push(c));
                }
            }
        }
    }
}

/// A word: non-empty, without whitespace or `#`.
pub open spec fn is_token(t: Seq<char>) -> bool {
    &&& t.len() > 0
    &&& forall|i: int| 0 <= i < t.len() ==> !is_space(#[trigger] t[i]) && t[i] != '#'
}

proof fn lemma_strip_plain(s: Seq<char>)
    requires
        no_hash(s),
    ensures
        strip_comment(s) == s,
    decreases s.len(),
{
    if s.len() > 0 {
        let t = s.drop_first();
        assert forall|i: int| 0 <= i < t.len() implies #[trigger] t[i] != '#' by {
            assert(t[i] == s[i + 1]);
        }
        lemma_strip_plain(t);
        assert(seq![s[0]] + t =~= s);
    }
}

proof fn lemma_words_one(t: Seq<char>)
    requires
        is_token(t),
    ensures
        words(t) == seq![t],
{
    assert(!is_space(t[0]));
    lemma_word_end(t, t.len() as int);
    assert(t.take(t.len() as int) =~= t);
    assert(t.skip(t.len() as int) =~= Seq::<char>::empty());
    assert(words(Seq::<char>::empty()) == Seq::<Seq<char>>::empty());
    assert(seq![t] + Seq::<Seq<char>>::empty() =~= seq![t]);
}

proof fn lemma_words_cons(t: Seq<char>, rest: Seq<char>)
    requires
        is_token(t),
    ensures
        words(t + seq![' '] + rest) == seq![t] + words(rest),
{
    let s = t + seq![' '] + rest;
    let n = t.len() as int;
    assert forall|i: int| 0 <= i < n implies !is_space(#[trigger] s[i]) by {
        assert(s[i] == t[i]);
    }
    assert(s[n] == ' ');
    assert(!is_space(s[0]));
    lemma_word_end(s, n);
    assert(s.take(n) =~= t);
    let r = s.skip(n);
    assert(words(s) == seq![s.take(n)] + words(r));
    assert(r[0] == ' ');
    assert(r.drop_first() =~= rest);
    assert(words(r) == words(r.drop_first()));
}

proof fn lemma_digit(d: nat)
    requires
        d < 10,
    ensures
        is_digit(digit(d)),
        ((digit(d) as u32) - ('0' as u32)) as nat == d,
        !is_space(digit(d)),
        digit(d) != '#' && digit(d) != '+' && digit(d) != '-',
        seq![digit(d)].drop_last() =~= Seq::<char>::empty(),
{
    assert(('0' as u32) == 48);
    assert(('9' as u32) == 57);
}

proof fn lemma_dec(n: nat)
    ensures
        is_token(dec(n)),
        all_digits(dec(n)),
        digits_value(dec(n)) == n,
        dec(n)[0] != '+' && dec(n)[0] != '-',
    decreases n,
{
    lemma_digit(n % 10);
    if n >= 10 {
        lemma_dec(n / 10);
        let d = dec(n / 10);
        let s = d.push(digit(n % 10));
        assert(s.drop_last() =~= d);
        assert(s.last() == digit(n % 10));
        assert((n / 10) * 10 + n % 10 == n);
        assert(digits_value(s) == digits_value(d) * 10 + n % 10);
        assert forall|i: int| 0 <= i < s.len() implies is_digit(#[trigger] s[i]) by {
            if i < d.len() {
                assert(s[i] == d[i]);
            }
        }
        assert(s[0] == d[0]);
    } else {
        lemma_digit(n);
        assert(dec(n) == seq![digit(n)]);
        assert(dec(n).drop_last() =~= Seq::<char>::empty());
        assert(dec(n).last() == digit(n));
        assert(digits_value(dec(n)) == digits_value(Seq::<char>::empty()) * 10 + ((digit(n) as u32) - ('0' as u32)) as nat);
    }
}

proof fn lemma_dec_int(x: i64)
    ensures
        is_token(dec_int(x as int)),
        parse_i64_spec(dec_int(x as int)) == Some(x),
{
    if x < 0 {
        let m = (-(x as int)) as nat;
        lemma_dec(m);
        let s = seq!['-'] + dec(m);
        assert(s.drop_first() =~= dec(m));
        assert forall|i: int| 0 <= i < s.len() implies !is_space(#[trigger] s[i]) && s[i] != '#' by {
            if i > 0 {
                assert(s[i] == dec(m)[i - 1]);
            }
        }
    } else {
        lemma_dec(x as nat);
    }
}

proof fn reveal_words()
    ensures
        "submit "@ == "submit"@ + seq![' '],
        "cancel "@ == "cancel"@ + seq![' '],
        "amend "@ == "amend"@ + seq![' '],
        "limit "@ == "limit"@ + seq![' '],
        "ioc "@ == "ioc"@ + seq![' '],
        " "@ == seq![' '],
        " - "@ == seq![' '] + "-"@ + seq![' '],
        is_token("submit"@),
        is_token("cancel"@),
        is_token("amend"@),
        is_token("buy"@),
        is_token("sell"@),
        is_token("limit"@),
        is_token("ioc"@),
        is_token("market"@),
        is_token("-"@),
        "submit"@ != "cancel"@ && "submit"@ != "amend"@ && "cancel"@ != "amend"@,
        "buy"@ != "sell"@,
        "limit"@ != "market"@ && "ioc"@ != "market"@ && "limit"@ != "ioc"@,
        parse_i64_spec("-"@) is None,
{
    reveal_strlit("submit ");
    reveal_strlit("submit");
    reveal_strlit("cancel ");
    reveal_strlit("cancel");
    reveal_strlit("amend ");
    reveal_strlit("amend");
    reveal_strlit(" ");
    reveal_strlit(" - ");
    reveal_strlit("-");
    reveal_strlit("buy");
    reveal_strlit("sell");
    reveal_strlit("limit ");
    reveal_strlit("limit");
    reveal_strlit("ioc ");
    reveal_strlit("ioc");
    reveal_strlit("market");
    assert("submit "@ =~= "submit"@ + seq![' ']);
    assert("cancel "@ =~= "cancel"@ + seq![' ']);
    assert("amend "@ =~= "amend"@ + seq![' ']);
    assert("limit "@ =~= "limit"@ + seq![' ']);
    assert("ioc "@ =~= "ioc"@ + seq![' ']);
    assert(" "@ =~= seq![' ']);
    assert(" - "@ =~= seq![' '] + "-"@ + seq![' ']);
    assert("submit"@[0] != "cancel"@[0]);
    assert("submit"@[0] != "amend"@[0]);
    assert("cancel"@[0] != "amend"@[0]);
    assert("buy"@[0] != "sell"@[0]);
    assert("limit"@[0] != "market"@[0]);
    assert("ioc"@[0] != "market"@[0]);
    assert("limit"@[0] != "ioc"@[0]);
    assert("-"@.drop_first().len() == 0);
}

#[verifier::rlimit(80)]
#[verifier::spinoff_prover]
proof fn lemma_parse_submit(side: Side, kind: OrderType, qty: crate::types::Qty)
    ensures
        parse_line_spec(command_text(Command::Submit { side, kind, qty })) == Ok::<
            Option<Command>,
            ParseFault,
        >(Some(Command::Submit { side, kind, qty })),
{
    reveal_words();
    let c = Command::Submit { side, kind, qty };
    let sp = seq![' '];
    let q = dec(qty.0 as nat);
    lemma_dec(qty.0 as nat);
    let st = side_text(side);
    lemma_words_one(q);
    let (k, tail) = match kind {
        OrderType::Market => ("market"@, q),
        OrderType::Limit { price } => ("limit"@, dec_int(price.0 as int) + sp + q),
        OrderType::Ioc { price } => ("ioc"@, dec_int(price.0 as int) + sp + q),
    };
    if let Some(pr) = spec_limit_of(kind) {
        let p = dec_int(pr.0 as int);
        lemma_dec_int(pr.0);
        lemma_words_cons(p, q);
    }
    assert(command_text(c) =~= "submit"@ + sp + (st + sp + (k + sp + tail)));
    lemma_words_cons(k, tail);
    lemma_words_cons(st, k + sp + tail);
    lemma_words_cons("submit"@, st + sp + (k + sp + tail));
    let ws = words(command_text(c));
    assert(ws[0] == "submit"@);
    assert(ws[1] == st);
    assert(ws[2] == k);
    lemma_token_plain(k);
    lemma_token_plain(st);
    lemma_token_plain(q);
    lemma_token_plain("submit"@);
    if let Some(pr) = spec_limit_of(kind) {
        lemma_token_plain(dec_int(pr.0 as int));
        lemma_join_plain(dec_int(pr.0 as int), q);
    }
    lemma_join_plain(k, tail);
    lemma_join_plain(st, k + sp + tail);
    lemma_join_plain("submit"@, st + sp + (k + sp + tail));
    lemma_strip_plain(command_text(c));
}

spec fn spec_limit_of(k: OrderType) -> Option<crate::types::Price> {
    match k {
        OrderType::Limit { price } => Some(price),
        OrderType::Ioc { price } => Some(price),
        OrderType::Market => None,
    }
}

/// No `#` in `s`.
pub open spec fn no_hash(s: Seq<char>) -> bool {
    forall|i: int| 0 <= i < s.len() ==> #[trigger] s[i] != '#'
}

/// Two texts without `#` joined by a space have none.
proof fn lemma_join_plain(a: Seq<char>, b: Seq<char>)
    requires
        no_hash(a),
        no_hash(b),
    ensures
        no_hash(a + seq![' '] + b),
{
    let s = a + seq![' '] + b;
    assert forall|i: int| 0 <= i < s.len() implies #[trigger] s[i] != '#' by {
        if i < a.len() {
            assert(s[i] == a[i]);
        } else if i > a.len() {
            assert(s[i] == b[i - a.len() - 1]);
        }
    }
}

proof fn lemma_token_plain(t: Seq<char>)
    requires
        is_token(t),
    ensures
        no_hash(t),
{
}

proof fn lemma_parse_cancel(id: crate::types::OrderId)
    ensures
        parse_line_spec(command_text(Command::Cancel { id })) == Ok::<Option<Command>, ParseFault>(
            Some(Command::Cancel { id }),
        ),
{
    reveal_words();
    let c = Command::Cancel { id };
    let sp = seq![' '];
    let i = dec(id.0 as nat);
    lemma_dec(id.0 as nat);
    lemma_words_one(i);
    assert(command_text(c) =~= "cancel"@ + sp + i);
    lemma_words_cons("cancel"@, i);
    assert(words(command_text(c)) =~= seq!["cancel"@, i]);
    lemma_token_plain(i);
    lemma_token_plain("cancel"@);
    lemma_join_plain("cancel"@, i);
    lemma_strip_plain(command_text(c));
}

proof fn lemma_parse_amend(id: crate::types::OrderId, price: Option<crate::types::Price>, qty: crate::types::Qty)
    ensures
        parse_line_spec(command_text(Command::Amend { id, price, qty })) == Ok::<
            Option<Command>,
            ParseFault,
        >(Some(Command::Amend { id, price, qty })),
{
    reveal_words();
    let c = Command::Amend { id, price, qty };
    let sp = seq![' '];
    let i = dec(id.0 as nat);
    lemma_dec(id.0 as nat);
    let q = dec(qty.0 as nat);
    lemma_dec(qty.0 as nat);
    lemma_words_one(q);
    let p = match price {
        Some(pr) => dec_int(pr.0 as int),
        None => "-"@,
    };
    if let Some(pr) = price {
        lemma_dec_int(pr.0);
    }
    assert(command_text(c) =~= "amend"@ + sp + (i + sp + (p + sp + q)));
    lemma_words_cons(p, q);
    lemma_words_cons(i, p + sp + q);
    lemma_words_cons("amend"@, i + sp + (p + sp + q));
    assert(words(command_text(c)) =~= seq!["amend"@, i, p, q]);
    lemma_token_plain(i);
    lemma_token_plain(p);
    lemma_token_plain(q);
    lemma_token_plain("amend"@);
    lemma_join_plain(p, q);
    lemma_join_plain(i, p + sp + q);
    lemma_join_plain("amend"@, i + sp + (p + sp + q));
    lemma_strip_plain(command_text(c));
    if let Some(pr) = price {
        assert(p != "-"@);
    }
}

/// Parsing the journal form of a command gives the command back.
pub proof fn lemma_parse_command_text(c: Command)
    ensures
        parse_line_spec(command_text(c)) == Ok::<Option<Command>, ParseFault>(Some(c)),
{
    match c {
        Command::Submit { side, kind, qty } => lemma_parse_submit(side, kind, qty),
        Command::Cancel { id } => lemma_parse_cancel(id),
        Command::Amend { id, price, qty } => lemma_parse_amend(id, price, qty),
    }
}

/// No line feed in `s`.
pub open spec fn one_line(s: Seq<char>) -> bool {
    forall|i: int| 0 <= i < s.len() ==> #[trigger] s[i] != '\n'
}

proof fn lemma_join_line(a: Seq<char>, b: Seq<char>)
    requires
        one_line(a),
        one_line(b),
    ensures
        one_line(a + seq![' '] + b),
{
    let s = a + seq![' '] + b;
    assert forall|i: int| 0 <= i < s.len() implies #[trigger] s[i] != '\n' by {
        if i < a.len() {
            assert(s[i] == a[i]);
        } else if i > a.len() {
            assert(s[i] == b[i - a.len() - 1]);
        }
    }
}

proof fn lemma_token_line(t: Seq<char>)
    requires
        is_token(t),
    ensures
        one_line(t),
{
    assert forall|i: int| 0 <= i < t.len() implies #[trigger] t[i] != '\n' by {
        assert(!is_space(t[i]));
    }
}

/// The journal form of a command is one line.
pub proof fn lemma_command_one_line(c: Command)
    ensures
        one_line(command_text(c)),
{
    reveal_words();
    let sp = seq![' '];
    match c {
        Command::Submit { side, kind, qty } => {
            let q = dec(qty.0 as nat);
            lemma_dec(qty.0 as nat);
            lemma_token_line(q);
            let st = side_text(side);
            lemma_token_line(st);
            let (k, tail) = match kind {
                OrderType::Market => ("market"@, q),
                OrderType::Limit { price } => ("limit"@, dec_int(price.0 as int) + sp + q),
                OrderType::Ioc { price } => ("ioc"@, dec_int(price.0 as int) + sp + q),
            };
            if let Some(pr) = spec_limit_of(kind) {
                lemma_dec_int(pr.0);
                lemma_token_line(dec_int(pr.0 as int));
                lemma_join_line(dec_int(pr.0 as int), q);
            }
            lemma_token_line(k);
            lemma_token_line("submit"@);
            assert(command_text(c) =~= "submit"@ + sp + (st + sp + (k + sp + tail)));
            lemma_join_line(k, tail);
            lemma_join_line(st, k + sp + tail);
            lemma_join_line("submit"@, st + sp + (k + sp + tail));
        },
        Command::Cancel { id } => {
            let i = dec(id.0 as nat);
            lemma_dec(id.0 as nat);
            lemma_token_line(i);
            lemma_token_line("cancel"@);
            assert(command_text(c) =~= "cancel"@ + sp + i);
            lemma_join_line("cancel"@, i);
        },
        Command::Amend { id, price, qty } => {
            let i = dec(id.0 as nat);
            lemma_dec(id.0 as nat);
            let q = dec(qty.0 as nat);
            lemma_dec(qty.0 as nat);
            let p = match price {
                Some(pr) => dec_int(pr.0 as int),
                None => "-"@,
            };
            if let Some(pr) = price {
                lemma_dec_int(pr.0);
            }
            lemma_token_line(i);
            lemma_token_line(q);
            lemma_token_line(p);
            lemma_token_line("amend"@);
            assert(command_text(c) =~= "amend"@ + sp + (i + sp + (p + sp + q)));
            lemma_join_line(p, q);
            lemma_join_line(i, p + sp + q);
            lemma_join_line("amend"@, i + sp + (p + sp + q));
        },
    }
}

/// A journal of `cmds`: each command's journal form on a line of its own.
pub open spec fn journal_of(cmds: Seq<Command>) -> Seq<char>
    decreases cmds.len(),
{
    if cmds.len() == 0 {
        Seq::empty()
    } else {
        command_text(cmds[0]) + seq!['\n'] + journal_of(cmds.drop_first())
    }
}

/// A line ended by a line feed, before more text, is the first line.
proof fn lemma_lines_cons(t: Seq<char>, rest: Seq<char>)
    requires
        one_line(t),
    ensures
        lines_spec(t + seq!['\n'] + rest) == seq![t] + lines_spec(rest),
{
    let s = t + seq!['\n'] + rest;
    let n = t.len() as int;
    lemma_line_len(s);
    if line_len(s) < n {
        assert(s[line_len(s) as int] == t[line_len(s) as int]);
    }
    if line_len(s) > n {
        assert(s[n] == '\n');
    }
    assert(line_len(s) == n);
    assert(s.take(n) =~= t);
    assert(s.skip(n + 1) =~= rest);
}

/// Printing commands as a journal and parsing the journal gives the
/// commands back.
pub proof fn lemma_parse_journal(cmds: Seq<Command>)
    ensures
        parse_lines(lines_spec(journal_of(cmds))) == Ok::<Seq<Command>, (int, ParseFault)>(cmds),
    decreases cmds.len(),
{
    if cmds.len() > 0 {
        let t = command_text(cmds[0]);
        let rest = journal_of(cmds.drop_first());
        lemma_command_one_line(cmds[0]);
        lemma_lines_cons(t, rest);
        lemma_parse_journal(cmds.drop_first());
        lemma_parse_command_text(cmds[0]);
        assert(journal_of(cmds) == t + seq!['\n'] + rest);
        let ls = lines_spec(journal_of(cmds));
        assert(ls == seq![t] + lines_spec(rest));
        assert(ls[0] == t);
        assert(ls.drop_first() =~= lines_spec(rest));
        assert(parse_lines(ls.drop_first()) == Ok::<Seq<Command>, (int, ParseFault)>(cmds.drop_first()));
        assert(parse_line_spec(ls[0]) == Ok::<Option<Command>, ParseFault>(Some(cmds[0])));
        assert(seq![cmds[0]] + cmds.drop_first() =~= cmds);
    } else {
        assert(journal_of(cmds) =~= Seq::<char>::empty());
        assert(lines_spec(Seq::<char>::empty()) == Seq::<Seq<char>>::empty());
        assert(parse_lines(Seq::<Seq<char>>::empty()) == Ok::<Seq<Command>, (int, ParseFault)>(Seq::empty()));
        assert(cmds =~= Seq::<Command>::empty());
    }
}

/// A parse error names a line the text has.
pub proof fn lemma_error_line(ls: Seq<Seq<char>>)
    ensures
        parse_lines(ls) matches Err((n, _)) ==> 1 <= n <= ls.len(),
    decreases ls.len(),
{
    if ls.len() > 0 {
        lemma_error_line(ls.drop_first());
    }
}

/// Number of lines of `text`, as `str::lines` counts them.
pub fn line_count(text: &str) -> (n: usize)
    ensures
        n == lines_spec(text@).len(),
{
    let cs = crate::text::chars_of(text);
    let ghost s = cs@;
    let mut start: usize = 0;
    let mut n: usize = 0;
    proof {
        assert(s.skip(0) =~= s);
    }
    while start < cs.len()
        invariant
            s == cs@,
            s == text@,
            0 <= start <= s.len(),
            n <= start,
            lines_spec(s).len() == n + lines_spec(s.skip(start as int)).len(),
        decreases s.len() - start,
    {
        let mut end = start;
        while end < cs.len() && cs[end] != '\n'
            invariant
                s == cs@,
                start <= end <= s.len(),
                forall|x: int| start <= x < end ==> #[trigger] s[x] != '\n',
            decreases s.len() - end,
        {
            end = end + 1;
        }
        let ghost t = s.skip(start as int);
        proof {
            lemma_line_len(t);
            let k = (end - start) as int;
            if line_len(t) < k {
                assert(t[line_len(t) as int] == s[start + line_len(t)]);
            }
            if line_len(t) > k {
                assert(t[k] == s[end as int]);
            }
            assert(line_len(t) == k);
            if end < s.len() {
                assert(t.skip(k + 1) =~= s.skip(end as int + 1));
            }
        }
        n = n + 1;
        if end < cs.len() {
            start = end + 1;
        } else {
            start = end;
            proof {
                assert(s.skip(start as int) =~= Seq::<char>::empty());
            }
        }
    }
    proof {
        assert(s.skip(start as int) =~= Seq::<char>::empty());
    }
    n
}

/// Text of a parse error.
pub open spec fn fault_text(k: ParseFault) -> Seq<char> {
    match k {
        ParseFault::UnknownCommand(w) => "unknown command `"@ + w + "`"@,
        ParseFault::UnknownSide(w) => "expected `buy` or `sell`, found `"@ + w + "`"@,
        ParseFault::UnknownOrderType(w) => "expected `limit`, `ioc` or `market`, found `"@ + w + "`"@,
        ParseFault::Missing(f) => "missing "@ + f,
        ParseFault::BadNumber(f, t) => "invalid "@ + f + " `"@ + t + "`"@,
        ParseFault::Trailing(w) => "unexpected `"@ + w + "` after command"@,
    }
}

impl ParseErrorKind {
    /// Appends the text of the error.
    pub fn push_text(&self, out: &mut Vec<char>)
        ensures
            final(out)@ == old(out)@ + fault_text(self@),
    {
        broadcast use lemma_add_assoc;
        match self {
            ParseErrorKind::UnknownCommand(w) => {
                push_str(out, "unknown command `");
                push_str(out, w.as_str());
                push_str(out, "`");
            },
            ParseErrorKind::UnknownSide(w) => {
                push_str(out, "expected `buy` or `sell`, found `");
                push_str(out, w.as_str());
                push_str(out, "`");
            },
            ParseErrorKind::UnknownOrderType(w) => {
                push_str(out, "expected `limit`, `ioc` or `market`, found `");
                push_str(out, w.as_str());
                push_str(out, "`");
            },
            ParseErrorKind::Missing(f) => {
                push_str(out, "missing ");
                push_str(out, f);
            },
            ParseErrorKind::BadNumber { field, text } => {
                push_str(out, "invalid ");
                push_str(out, field);
                push_str(out, " `");
                push_str(out, text.as_str());
                push_str(out, "`");
            },
            ParseErrorKind::Trailing(w) => {
                push_str(out, "unexpected `");
                push_str(out, w.as_str());
                push_str(out, "` after command");
            },
        }
    }

    /// The error as text.
    pub fn text(&self) -> (s: String)
        ensures
            s@ == fault_text(self@),
    {
        let mut out: Vec<char> = Vec::new();
        self.push_text(&mut out);
        proof {
            assert(out@ =~= fault_text(self@));
        }
        string_of(&out)
    }
}

impl ParseError {
    /// The error as text, with its line number.
    pub fn text(&self) -> (s: String)
        ensures
            s@ == "line "@ + dec(self.line as nat) + ": "@ + fault_text(self.kind@),
    {
        broadcast use lemma_add_assoc;
        let mut out: Vec<char> = Vec::new();
        push_str(&mut out, "line ");
        push_dec(&mut out, self.line as u64);
        push_str(&mut out, ": ");
        self.kind.push_text(&mut out);
        proof {
            assert(out@ =~= "line "@ + dec(self.line as nat) + ": "@ + fault_text(self.kind@));
        }
        string_of(&out)
    }
}

} // verus!

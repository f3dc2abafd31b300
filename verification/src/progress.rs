//! What is running, as a tree of lines at the bottom of the terminal.
//!
//! A [`Progress`] holds one line per package and indented lines for the commands
//! and downloads under it. Everything that changes the tree also redraws it: the
//! steps of a redraw - rows to erase, lines to write, a cursor to hide - are
//! queued for whoever owns the terminal.

use vstd::prelude::*;

use crate::path::{lossy, lossy_text};
use crate::text::{
    characters, decimal, is_control_char, is_space_char, push_decimal, string_of, texts,
};
use crate::wire::types::ProgressNode;

verus! {

/// Columns a child line is indented by, per level of nesting.
pub const INDENT: usize = 4;

/// Width assumed when the terminal will not say how wide it is.
pub const FALLBACK_WIDTH: usize = 80;

/// Cap applied to a node's label and message text.
pub const MESSAGE_CAP: usize = 512;

/// The character text that cannot be shown is replaced by.
pub const REPLACEMENT: char = '\u{fffd}';

/// What marks text that was cut short.
pub const ELLIPSIS: char = '\u{2026}';

/// Whether a character may stand in a line: it neither moves the cursor nor says
/// that something could not be shown.
pub open spec fn is_plain(c: char) -> bool {
    !is_control_char(c) && c != REPLACEMENT
}

/// `text` with each tab turned into a space and every other character that is not
/// plain left out.
pub open spec fn collapsed(text: Seq<char>) -> Seq<char>
    decreases text.len(),
{
    if text.len() == 0 {
        Seq::empty()
    } else {
        let rest = collapsed(text.drop_last());
        if text.last() == '\t' {
            rest.push(' ')
        } else if is_plain(text.last()) {
            rest.push(text.last())
        } else {
            rest
        }
    }
}

/// `text` without what would disturb a line, cut to `cap` characters with a
/// visible mark where it was cut.
pub open spec fn sanitised(text: Seq<char>, cap: nat) -> Seq<char> {
    let c = collapsed(text);
    if c.len() <= cap {
        c
    } else if cap == 0 {
        Seq::empty()
    } else {
        c.take(cap - 1).push(ELLIPSIS)
    }
}

/// Flatten anything that would move the cursor out of the line it is on.
fn collapse_control(text: &str) -> (r: String)
    ensures
        r@ == collapsed(text@),
{
    let chars = characters(text);
    let mut r = String::new();
    let mut i: usize = 0;
    while i < chars.len()
        invariant
            i <= chars@.len(),
            r@ == collapsed(chars@.take(i as int)),
        decreases chars@.len() - i,
    {
        let c = chars[i];
        assert(chars@.take(i + 1).drop_last() =~= chars@.take(i as int));
        if c == '\t' {
            r.push(' ');
        } else if !c.is_control() && c != REPLACEMENT {
            r.push(c);
        }
        i += 1;
    }
    assert(chars@.take(chars@.len() as int) =~= chars@);
    r
}

/// The single choke point untrusted text passes through before it can reach a
/// wire type.
pub fn sanitise(text: &str, cap: usize) -> (r: String)
    ensures
        r@ == sanitised(text@, cap as nat),
{
    let collapsed = collapse_control(text);
    let chars = characters(collapsed.as_str());
    if chars.len() <= cap {
        return collapsed;
    }
    if cap == 0 {
        return String::new();
    }
    let mut truncated = string_of(&chars, 0, cap - 1);
    truncated.push(ELLIPSIS);
    truncated
}

proof fn lemma_collapsed_plain(text: Seq<char>)
    ensures
        forall|i: int|
            0 <= i < collapsed(text).len() ==> is_plain(#[trigger] collapsed(text)[i]),
        collapsed(text).len() <= text.len(),
    decreases text.len(),
{
    if text.len() > 0 {
        lemma_collapsed_plain(text.drop_last());
    }
}

proof fn lemma_plain_is_kept(text: Seq<char>)
    requires
        forall|i: int| 0 <= i < text.len() ==> is_plain(#[trigger] text[i]),
    ensures
        collapsed(text) == text,
    decreases text.len(),
{
    if text.len() > 0 {
        lemma_plain_is_kept(text.drop_last());
        assert(is_plain(text[text.len() - 1]));
        assert(text.drop_last().push(text.last()) =~= text);
    } else {
        assert(text =~= Seq::<char>::empty());
    }
}

/// Sanitised text never exceeds its cap and holds nothing that would disturb a
/// line.
pub proof fn lemma_sanitised_is_safe(text: Seq<char>, cap: nat)
    ensures
        sanitised(text, cap).len() <= cap,
        forall|i: int|
            0 <= i < sanitised(text, cap).len() ==> is_plain(#[trigger] sanitised(text, cap)[i]),
{
    lemma_collapsed_plain(text);
}

/// Sanitising text a second time changes nothing.
pub proof fn lemma_sanitised_twice(text: Seq<char>, cap: nat)
    ensures
        sanitised(sanitised(text, cap), cap) == sanitised(text, cap),
{
    lemma_sanitised_is_safe(text, cap);
    lemma_plain_is_kept(sanitised(text, cap));
}

/// Text that is plain and fits is left as it is.
pub proof fn lemma_sanitised_keeps_short_text(text: Seq<char>, cap: nat)
    requires
        text.len() <= cap,
        forall|i: int| 0 <= i < text.len() ==> is_plain(#[trigger] text[i]),
    ensures
        sanitised(text, cap) == text,
{
    lemma_plain_is_kept(text);
}

/// Text that does not fit is cut to exactly its cap, and says so.
pub proof fn lemma_sanitised_marks_a_cut(text: Seq<char>, cap: nat)
    requires
        collapsed(text).len() > cap > 0,
    ensures
        sanitised(text, cap).len() == cap,
        sanitised(text, cap).last() == ELLIPSIS,
{
}

/// `n / d` to the nearest whole number, a tie going to the even one.
pub open spec fn rounded_ratio(n: nat, d: nat) -> nat
    recommends
        d > 0,
{
    let q = n / d;
    let r = n % d;
    if 2 * r < d || (2 * r == d && q % 2 == 0) {
        q
    } else {
        q + 1
    }
}

/// 2 to the 53rd: the whole numbers below it all have a double of their own.
pub const DOUBLE_EXACT: u64 = 0x20_0000_0000_0000;

/// How far apart the doubles near `n` are, where whole numbers are concerned.
pub open spec fn double_gap(n: nat) -> nat
    decreases n,
{
    if n < DOUBLE_EXACT {
        1
    } else {
        2 * double_gap(n / 2)
    }
}

/// The double nearest to `n`.
pub open spec fn nearest_double(n: nat) -> nat {
    rounded_ratio(n, double_gap(n)) * double_gap(n)
}

/// `tenths` tenths, with one digit after the point.
pub open spec fn tenths_text(tenths: nat) -> Seq<char> {
    decimal(tenths / 10) + "."@ + decimal(tenths % 10)
}

/// A byte count the way a person reads one: whole bytes below a kibibyte, and
/// otherwise one digit after the point, of the double nearest to the count.
pub open spec fn bytes_text(bytes: nat) -> Seq<char> {
    let size = nearest_double(bytes) * 10;
    if bytes < 0x400 {
        decimal(bytes) + "B"@
    } else if bytes < 0x10_0000 {
        tenths_text(rounded_ratio(size, 0x400)) + "KiB"@
    } else if bytes < 0x4000_0000 {
        tenths_text(rounded_ratio(size, 0x10_0000)) + "MiB"@
    } else if bytes < 0x100_0000_0000 {
        tenths_text(rounded_ratio(size, 0x4000_0000)) + "GiB"@
    } else {
        tenths_text(rounded_ratio(size, 0x100_0000_0000)) + "TiB"@
    }
}

/// The nearest whole number to `n / d`.
fn divide_rounded(n: u128, d: u128) -> (r: u128)
    requires
        0 < d <= u64::MAX,
        n < u128::MAX,
    ensures
        r == rounded_ratio(n as nat, d as nat),
{
    let q: u128 = n / d;
    let rest: u128 = n % d;
    assert(q <= n) by (nonlinear_arith)
        requires
            q == n / d,
            d > 0,
    ;
    if 2 * rest < d || (2 * rest == d && q % 2 == 0) {
        q
    } else {
        q + 1
    }
}

/// The double nearest to `n`.
fn as_double(n: u64) -> (r: u128)
    ensures
        r == nearest_double(n as nat),
        r <= 2 * n,
{
    let mut gap: u128 = 1;
    let mut rest: u64 = n;
    while rest >= DOUBLE_EXACT
        invariant
            gap >= 1,
            gap * double_gap(rest as nat) == double_gap(n as nat),
            gap * rest <= n,
            n > 0 ==> rest > 0,
        decreases rest,
    {
        let ghost tail = double_gap((rest / 2) as nat);
        assert(gap * (2 * tail) == (2 * gap) * tail) by (nonlinear_arith);
        assert((2 * gap) * (rest / 2) <= gap * rest) by (nonlinear_arith)
            requires
                gap >= 1,
                rest >= 0,
        ;
        assert(gap <= gap * rest) by (nonlinear_arith)
            requires
                gap >= 1,
                rest >= 1,
        ;
        rest = rest / 2;
        gap = 2 * gap;
    }
    assert(gap == double_gap(n as nat)) by {
        assert(double_gap(rest as nat) == 1);
        assert(gap * 1 == gap);
    }
    proof {
        if n > 0 {
            assert(gap <= gap * rest) by (nonlinear_arith)
                requires
                    gap >= 1,
                    rest >= 1,
            ;
        } else {
            assert(gap == 1);
        }
    }
    let q: u128 = divide_rounded(n as u128, gap);
    proof {
        let whole = (n as nat) / (gap as nat);
        assert(whole * gap <= n) by (nonlinear_arith)
            requires
                whole == (n as nat) / (gap as nat),
                gap >= 1,
        ;
        assert(q <= whole + 1);
        assert(q * gap <= whole * gap + gap) by (nonlinear_arith)
            requires
                q <= whole + 1,
                gap >= 1,
        ;
        if n == 0 {
            assert(whole == 0);
            assert(q * gap == 0) by (nonlinear_arith)
                requires
                    q == 0,
            ;
        }
    }
    q * gap
}

/// Append `tenths` tenths, with one digit after the point.
fn push_tenths(out: &mut String, tenths: u64)
    ensures
        final(out)@ == old(out)@ + tenths_text(tenths as nat),
{
    push_decimal(out, tenths / 10);
    out.push_str(".");
    push_decimal(out, tenths % 10);
    assert(out@ =~= old(out)@ + tenths_text(tenths as nat));
}

/// Append a byte count that is at least a kibibyte, in units of `unit` bytes.
fn push_in_units(out: &mut String, bytes: u64, unit: u64, name: &str)
    requires
        unit >= 0x400,
        bytes >= unit,
    ensures
        final(out)@ == old(out)@ + (tenths_text(
            rounded_ratio(nearest_double(bytes as nat) * 10, unit as nat),
        ) + name@),
{
    let size: u128 = as_double(bytes) * 10;
    let tenths: u128 = divide_rounded(size, unit as u128);
    proof {
        let q = (size as nat) / (unit as nat);
        assert(q <= (size as nat) / 0x400) by (nonlinear_arith)
            requires
                q == (size as nat) / (unit as nat),
                unit >= 0x400,
        ;
        assert(tenths <= q + 1);
    }
    push_tenths(out, tenths as u64);
    out.push_str(name);
    assert(out@ =~= old(out)@ + (tenths_text(
        rounded_ratio(nearest_double(bytes as nat) * 10, unit as nat),
    ) + name@));
}

/// Render a byte count the way a person reads one.
pub fn human_bytes(bytes: u64) -> (r: String)
    ensures
        r@ == bytes_text(bytes as nat),
{
    let mut r = String::new();
    if bytes < 0x400 {
        push_decimal(&mut r, bytes);
        r.push_str("B");
    } else if bytes < 0x10_0000 {
        push_in_units(&mut r, bytes, 0x400, "KiB");
    } else if bytes < 0x4000_0000 {
        push_in_units(&mut r, bytes, 0x10_0000, "MiB");
    } else if bytes < 0x100_0000_0000 {
        push_in_units(&mut r, bytes, 0x4000_0000, "GiB");
    } else {
        push_in_units(&mut r, bytes, 0x100_0000_0000, "TiB");
    }
    assert(r@ =~= bytes_text(bytes as nat));
    r
}

/// Nanoseconds in a second.
pub const SECOND: u64 = 1_000_000_000;

/// Which side of a value half way between two tenths of a second its double lies
/// on, as a remainder modulo 5: 0 on neither, 1 or 2 below it, 3 or 4 above it.
/// The value is `seconds` and `twentieths` twentieths, the latter odd.
///
/// The doubles near the value are some power of two apart. In that unit the value
/// is a whole number of fifths, and the nearest double is the nearest multiple of
/// five of them.
pub open spec fn half_way_side(seconds: nat, twentieths: nat) -> nat {
    let scale: nat = if seconds >= 32 {
        2
    } else if seconds >= 16 {
        4
    } else if seconds >= 8 {
        3
    } else if seconds >= 4 {
        1
    } else if seconds >= 2 {
        2
    } else if seconds >= 1 {
        4
    } else if twentieths >= 10 {
        3
    } else if twentieths >= 5 {
        1
    } else if twentieths >= 3 {
        2
    } else {
        3
    };
    (twentieths * scale) % 5
}

/// A time below a minute in tenths of a second: the nearest one to its double,
/// and the even one of two that are equally near.
pub open spec fn rounded_tenths(nanos: nat) -> nat {
    let q = nanos / 100_000_000;
    let r = nanos % 100_000_000;
    let side = half_way_side(q / 10, 2 * (q % 10) + 1);
    if r < 50_000_000 || (r == 50_000_000 && (side == 1 || side == 2 || (side == 0 && q % 2 == 0))) {
        q
    } else {
        q + 1
    }
}

/// How long something has been running: seconds and tenths below a minute, and
/// minutes and seconds from there on.
pub open spec fn elapsed_text(nanos: nat) -> Seq<char> {
    let seconds = nanos / (SECOND as nat);
    if seconds < 60 {
        tenths_text(rounded_tenths(nanos)) + "s"@
    } else {
        decimal(seconds / 60) + "m"@ + (if seconds % 60 < 10 {
            "0"@
        } else {
            ""@
        }) + decimal(seconds % 60) + "s"@
    }
}

fn tie_side(seconds: u64, twentieths: u64) -> (r: u64)
    requires
        twentieths < 20,
    ensures
        r == half_way_side(seconds as nat, twentieths as nat),
{
    let scale: u64 = if seconds >= 32 {
        2
    } else if seconds >= 16 {
        4
    } else if seconds >= 8 {
        3
    } else if seconds >= 4 {
        1
    } else if seconds >= 2 {
        2
    } else if seconds >= 1 {
        4
    } else if twentieths >= 10 {
        3
    } else if twentieths >= 5 {
        1
    } else if twentieths >= 3 {
        2
    } else {
        3
    };
    assert(twentieths * scale <= 19 * 4) by (nonlinear_arith)
        requires
            twentieths <= 19,
            scale <= 4,
    ;
    (twentieths * scale) % 5
}

/// Render how long something has been running, in nanoseconds.
pub fn format_elapsed(nanos: u64) -> (r: String)
    ensures
        r@ == elapsed_text(nanos as nat),
{
    let seconds: u64 = nanos / SECOND;
    let mut r = String::new();
    if seconds < 60 {
        let q: u64 = nanos / 100_000_000;
        let rest: u64 = nanos % 100_000_000;
        let side: u64 = tie_side(q / 10, 2 * (q % 10) + 1);
        let down = rest < 50_000_000 || (rest == 50_000_000 && (side == 1 || side == 2 || (side == 0
            && q % 2 == 0)));
        let tenths: u64 = if down {
            q
        } else {
            q + 1
        };
        push_tenths(&mut r, tenths);
        r.push_str("s");
    } else {
        push_decimal(&mut r, seconds / 60);
        r.push_str("m");
        if seconds % 60 < 10 {
            r.push_str("0");
        }
        push_decimal(&mut r, seconds % 60);
        r.push_str("s");
        proof {
            reveal_strlit("");
            assert(""@ =~= Seq::<char>::empty());
        }
    }
    assert(r@ =~= elapsed_text(nanos as nat));
    r
}

/// A reading of the clocks.
#[derive(Debug, Clone, Copy, PartialEq, Eq, Structural)]
pub struct Moment {
    /// Nanoseconds of a clock that never goes back, for how long a line has been
    /// open.
    pub nanos: u64,
    /// Microseconds of wall-clock time, which mean something in another process.
    pub wall_usec: u64,
}

/// What a line says after its label.
#[derive(Debug)]
pub enum Detail {
    /// Nothing yet - the work has started but has not reported.
    Silent,
    /// The last thing the work said, usually a line of its output.
    Message(String),
    /// A transfer, with the total if the server declared one.
    Bytes {
        done: u64,
        total: Option<u64>,
    },
}

/// One line of the region.
#[derive(Debug)]
pub struct Node {
    pub id: u64,
    pub parent: Option<u64>,
    pub depth: usize,
    pub label: String,
    pub detail: Detail,
    pub started: Moment,
}

/// The 1-based id a node has on the wire, where 0 means "no parent".
pub open spec fn wire_number(id: u64) -> u32 {
    if id < u32::MAX {
        (id + 1) as u32
    } else {
        u32::MAX
    }
}

/// Map an internal, 0-based node id to the 1-based id of the wire.
fn wire_id(id: u64) -> (r: u32)
    ensures
        r == wire_number(id),
{
    if id < u32::MAX as u64 {
        (id + 1) as u32
    } else {
        u32::MAX
    }
}

/// A line is never numbered 0 on the wire, and two lines keep different numbers there
/// as long as the numbers last.
pub proof fn lemma_wire_numbers(a: u64, b: u64)
    ensures
        wire_number(a) != 0,
        a < b && a + 1 < u32::MAX ==> wire_number(a) < wire_number(b),
{
}

/// `node` is what a poller is told of `n`.
pub open spec fn on_the_wire(n: Node, node: ProgressNode) -> bool {
    &&& node.id == wire_number(n.id)
    &&& node.parent == (match n.parent {
        Some(p) => wire_number(p),
        None => 0u32,
    })
    &&& node.depth == (if n.depth <= u32::MAX {
        n.depth as u32
    } else {
        u32::MAX
    })
    &&& node.label@ == sanitised(n.label@, MESSAGE_CAP as nat)
    &&& node.started_usec == n.started.wall_usec
    &&& match n.detail {
        Detail::Silent => node.kind == 0 && node.text@.len() == 0 && node.done == 0 && node.total
            == 0,
        Detail::Message(message) => node.kind == 1 && node.text@ == sanitised(
            message@,
            MESSAGE_CAP as nat,
        ) && node.done == 0 && node.total == 0,
        Detail::Bytes { done, total } => node.kind == 2 && node.text@.len() == 0 && node.done
            == done && node.total == (match total {
            Some(t) => t,
            None => 0,
        }),
    }
}

impl Node {
    /// This node as the wire type a poller reads, sanitised and with the wall
    /// clock.
    pub fn to_wire(&self) -> (r: ProgressNode)
        ensures
            on_the_wire(*self, r),
    {
        let mut kind: u8 = 0;
        let mut text = String::new();
        let mut transferred: u64 = 0;
        let mut declared: u64 = 0;
        match &self.detail {
            Detail::Silent => {},
            Detail::Message(message) => {
                kind = 1;
                text = sanitise(message.as_str(), MESSAGE_CAP);
            },
            Detail::Bytes { done, total } => {
                kind = 2;
                transferred = *done;
                declared = match total {
                    Some(t) => *t,
                    None => 0,
                };
            },
        }
        let parent: u32 = match self.parent {
            Some(p) => wire_id(p),
            None => 0,
        };
        let depth: u32 = if self.depth <= u32::MAX as usize {
            self.depth as u32
        } else {
            u32::MAX
        };
        ProgressNode {
            id: wire_id(self.id),
            parent,
            depth,
            label: sanitise(self.label.as_str(), MESSAGE_CAP),
            kind,
            text,
            done: transferred,
            total: declared,
            started_usec: self.started.wall_usec,
        }
    }
}

/// One step of a redraw.
#[derive(Debug, PartialEq, Eq)]
pub enum Op {
    /// Go up this many rows and clear each of them.
    Erase(usize),
    HideCursor,
    ShowCursor,
    /// Write this line and go to the next row.
    Line(String),
}

/// What an [`Op`] says.
pub enum OpView {
    Erase(nat),
    HideCursor,
    ShowCursor,
    Line(Seq<char>),
}

impl View for Op {
    type V = OpView;

    open spec fn view(&self) -> OpView {
        match *self {
            Op::Erase(rows) => OpView::Erase(rows as nat),
            Op::HideCursor => OpView::HideCursor,
            Op::ShowCursor => OpView::ShowCursor,
            Op::Line(line) => OpView::Line(line@),
        }
    }
}

/// What each step of a list says.
pub open spec fn op_views(ops: Seq<Op>) -> Seq<OpView> {
    ops.map_values(|o: Op| o@)
}

/// A line for each text.
pub open spec fn line_ops(lines: Seq<Seq<char>>) -> Seq<OpView> {
    lines.map_values(|l: Seq<char>| OpView::Line(l))
}

/// `text` written `n` times.
pub open spec fn repeated(text: Seq<char>, n: nat) -> Seq<char>
    decreases n,
{
    if n == 0 {
        Seq::empty()
    } else {
        repeated(text, (n - 1) as nat) + text
    }
}

/// What a step writes into something that is not a terminal: the same thing, as
/// escape sequences.
pub open spec fn op_text(op: OpView) -> Seq<char> {
    match op {
        OpView::Erase(rows) => repeated("\x1b[1A\x1b[2K"@, rows),
        OpView::HideCursor => "\x1b[?25l"@,
        OpView::ShowCursor => "\x1b[?25h"@,
        OpView::Line(line) => line + "\n"@,
    }
}

/// Append `text` to `out`, `n` times.
fn push_repeated(out: &mut String, text: &str, n: usize)
    ensures
        final(out)@ == old(out)@ + repeated(text@, n as nat),
{
    let mut i: usize = 0;
    assert(out@ =~= old(out)@ + repeated(text@, 0));
    while i < n
        invariant
            i <= n,
            out@ == old(out)@ + repeated(text@, i as nat),
        decreases n - i,
    {
        out.push_str(text);
        i += 1;
        assert(out@ =~= old(out)@ + repeated(text@, i as nat));
    }
}

impl Op {
    /// What this step writes into something that is not a terminal.
    pub fn to_text(&self) -> (r: String)
        ensures
            r@ == op_text(self@),
    {
        let mut r = String::new();
        match self {
            Op::Erase(rows) => push_repeated(&mut r, "\x1b[1A\x1b[2K", *rows),
            Op::HideCursor => r.push_str("\x1b[?25l"),
            Op::ShowCursor => r.push_str("\x1b[?25h"),
            Op::Line(line) => {
                r.push_str(line.as_str());
                r.push_str("\n");
            },
        }
        assert(r@ =~= op_text(self@));
        r
    }
}

/// Where the region is drawn, and how wide it is.
#[derive(Debug, Clone, Copy, PartialEq, Eq, Structural)]
pub enum Canvas {
    /// A real terminal, which may or may not say how many columns it has.
    Terminal {
        columns: Option<usize>,
    },
    /// Anything else that can be written to, at a fixed width.
    Writer {
        width: usize,
    },
    /// Nowhere: nothing is ever queued for it.
    Silent,
}

/// How wide a line may be before it wraps.
pub open spec fn canvas_width(canvas: Canvas) -> usize {
    match canvas {
        Canvas::Terminal { columns } => match columns {
            Some(n) => n,
            None => FALLBACK_WIDTH,
        },
        Canvas::Writer { width } => width,
        Canvas::Silent => FALLBACK_WIDTH,
    }
}

/// The spinner in each of its ten positions.
pub open spec fn spinner(frame: usize) -> char {
    let at = frame % 10;
    if at == 0 {
        '\u{280b}'
    } else if at == 1 {
        '\u{2819}'
    } else if at == 2 {
        '\u{2839}'
    } else if at == 3 {
        '\u{2838}'
    } else if at == 4 {
        '\u{283c}'
    } else if at == 5 {
        '\u{2834}'
    } else if at == 6 {
        '\u{2826}'
    } else if at == 7 {
        '\u{2827}'
    } else if at == 8 {
        '\u{2807}'
    } else {
        '\u{280f}'
    }
}

fn spinner_char(frame: usize) -> (c: char)
    ensures
        c == spinner(frame),
{
    let at: usize = frame % 10;
    if at == 0 {
        '\u{280b}'
    } else if at == 1 {
        '\u{2819}'
    } else if at == 2 {
        '\u{2839}'
    } else if at == 3 {
        '\u{2838}'
    } else if at == 4 {
        '\u{283c}'
    } else if at == 5 {
        '\u{2834}'
    } else if at == 6 {
        '\u{2826}'
    } else if at == 7 {
        '\u{2827}'
    } else if at == 8 {
        '\u{2807}'
    } else {
        '\u{280f}'
    }
}

/// `n` spaces.
pub open spec fn spaces(n: nat) -> Seq<char> {
    Seq::new(n, |i: int| ' ')
}

/// What a line says after its label.
pub open spec fn detail_text(detail: Detail) -> Seq<char> {
    match detail {
        Detail::Silent => Seq::empty(),
        Detail::Message(message) => "  "@ + message@,
        Detail::Bytes { done, total } => "  "@ + match total {
            Some(t) => bytes_text(done as nat) + "/"@ + bytes_text(t as nat),
            None => bytes_text(done as nat),
        },
    }
}

/// What stands on the left of a line before it is cut to size.
pub open spec fn left_text(n: Node, frame: usize) -> Seq<char> {
    collapsed(
        spaces(n.depth as nat * INDENT as nat).push(spinner(frame)) + " "@ + n.label@ + detail_text(
            n.detail,
        ),
    )
}

/// What stands on the right of a line: how long it has been open.
pub open spec fn right_text(n: Node, now: Moment) -> Seq<char> {
    let nanos = if now.nanos >= n.started.nanos {
        (now.nanos - n.started.nanos) as nat
    } else {
        0
    };
    "["@ + elapsed_text(nanos) + "]"@
}

/// `left` cut so that a space and `right` fit behind it, `right` flush with the
/// right margin.
pub open spec fn fitted(left: Seq<char>, right: Seq<char>, width: nat) -> Seq<char> {
    let room = if width > right.len() + 1 {
        (width - right.len() - 1) as nat
    } else {
        0
    };
    let shown = if left.len() <= room {
        left
    } else {
        left.take(room as int)
    };
    let gap = if width > shown.len() + right.len() {
        (width - shown.len() - right.len()) as nat
    } else {
        0
    };
    shown + spaces(gap) + right
}

/// One line of the region.
pub open spec fn line_text(n: Node, frame: usize, width: nat, now: Moment) -> Seq<char> {
    fitted(left_text(n, frame), right_text(n, now), width)
}

/// Every line of the region.
pub open spec fn region_lines(
    nodes: Seq<Node>,
    frame: usize,
    width: nat,
    now: Moment,
) -> Seq<Seq<char>> {
    nodes.map_values(|n: Node| line_text(n, frame, width, now))
}

/// A line is as wide as the terminal, unless the time alone is wider: it never
/// wraps because of what it says.
pub proof fn lemma_line_fits(n: Node, frame: usize, width: nat, now: Moment)
    ensures
        line_text(n, frame, width, now).len() == (if width >= right_text(n, now).len() {
            width
        } else {
            right_text(n, now).len()
        }),
{
}

/// Append `n` spaces.
fn push_spaces(out: &mut String, n: usize)
    ensures
        final(out)@ == old(out)@ + spaces(n as nat),
{
    let mut i: usize = 0;
    assert(out@ =~= old(out)@ + spaces(0));
    while i < n
        invariant
            i <= n,
            out@ == old(out)@ + spaces(i as nat),
        decreases n - i,
    {
        out.push(' ');
        i += 1;
        assert(out@ =~= old(out)@ + spaces(i as nat));
    }
}

/// One line: spinner, label and detail on the left, elapsed on the right.
fn render_node(node: &Node, frame: usize, width: usize, now: Moment) -> (r: String)
    ensures
        r@ == line_text(*node, frame, width as nat, now),
{
    let mut whole = String::new();
    let mut level: usize = 0;
    assert(whole@ =~= spaces(0));
    while level < node.depth
        invariant
            level <= node.depth,
            whole@ == spaces(level as nat * INDENT as nat),
        decreases node.depth - level,
    {
        push_spaces(&mut whole, INDENT);
        level += 1;
        assert(whole@ =~= spaces(level as nat * INDENT as nat));
    }
    whole.push(spinner_char(frame));
    whole.push_str(" ");
    whole.push_str(node.label.as_str());
    match &node.detail {
        Detail::Silent => {},
        Detail::Message(message) => {
            whole.push_str("  ");
            whole.push_str(message.as_str());
        },
        Detail::Bytes { done, total } => {
            whole.push_str("  ");
            whole.push_str(human_bytes(*done).as_str());
            match total {
                Some(t) => {
                    whole.push_str("/");
                    whole.push_str(human_bytes(*t).as_str());
                },
                None => {},
            }
        },
    }
    assert(whole@ =~= spaces(node.depth as nat * INDENT as nat).push(spinner(frame)) + " "@
        + node.label@ + detail_text(node.detail));
    let left = characters(collapse_control(whole.as_str()).as_str());

    let elapsed: u64 = if now.nanos >= node.started.nanos {
        now.nanos - node.started.nanos
    } else {
        0
    };
    let mut right = String::new();
    right.push_str("[");
    right.push_str(format_elapsed(elapsed).as_str());
    right.push_str("]");
    assert(right@ =~= right_text(*node, now));
    let right_width: usize = characters(right.as_str()).len();

    let room: usize = if width > right_width && width - right_width > 1 {
        width - right_width - 1
    } else {
        0
    };
    let shown: usize = if left.len() <= room {
        left.len()
    } else {
        room
    };
    let mut r = string_of(&left, 0, shown);
    assert(left@.subrange(0, left@.len() as int) =~= left@);
    let gap: usize = if width > right_width && width - right_width > shown {
        width - right_width - shown
    } else {
        0
    };
    push_spaces(&mut r, gap);
    r.push_str(right.as_str());
    assert(r@ =~= line_text(*node, frame, width as nat, now));
    r
}

/// Where the line `id` is, or past the end when it is not open.
pub open spec fn position(nodes: Seq<Node>, id: u64) -> int
    decreases nodes.len(),
{
    if nodes.len() == 0 || nodes[0].id == id {
        0
    } else {
        1 + position(nodes.skip(1), id)
    }
}

/// The first line from `from` on that is no deeper than `depth`, or past the end.
pub open spec fn first_shallow(nodes: Seq<Node>, from: int, depth: usize) -> int
    decreases nodes.len() - from,
{
    if from >= nodes.len() || from < 0 || nodes[from].depth <= depth {
        from
    } else {
        first_shallow(nodes, from + 1, depth)
    }
}

/// Where a new line goes: directly after the last line nested under its parent,
/// and at the end when it has no parent or its parent is not open any more.
pub open spec fn place_for(nodes: Seq<Node>, parent: Option<u64>) -> int {
    match parent {
        Some(p) => {
            let at = position(nodes, p);
            if at < nodes.len() {
                first_shallow(nodes, at + 1, nodes[at].depth)
            } else {
                nodes.len() as int
            }
        },
        None => nodes.len() as int,
    }
}

/// Line `x` is line `id` or is nested under it, at any depth.
pub open spec fn under(nodes: Seq<Node>, x: u64, id: u64) -> bool
    decreases x,
{
    x == id || exists|j: int|
        0 <= j < nodes.len() && (#[trigger] nodes[j]).id == x && nodes[j].parent is Some
            && nodes[j].parent->0 < x && under(nodes, nodes[j].parent->0, id)
}

/// Which of the first `n` lines are neither line `id` nor nested under it.
pub open spec fn surviving(nodes: Seq<Node>, id: u64, n: int) -> Seq<int>
    decreases n,
{
    if n <= 0 {
        Seq::empty()
    } else {
        let rest = surviving(nodes, id, n - 1);
        if under(nodes, nodes[n - 1].id, id) {
            rest
        } else {
            rest.push(n - 1)
        }
    }
}

/// The lines without line `id` and everything nested under it.
pub open spec fn without(nodes: Seq<Node>, id: u64) -> Seq<Node> {
    surviving(nodes, id, nodes.len() as int).map_values(|i: int| nodes[i])
}

/// Lines have ids of their own, given out in order, and a line comes after the
/// one it is nested under.
pub open spec fn numbered(nodes: Seq<Node>, next_id: u64) -> bool {
    &&& forall|i: int|
        0 <= i < nodes.len() ==> (#[trigger] nodes[i]).id < next_id && (nodes[i].parent is Some
            ==> nodes[i].parent->0 < nodes[i].id)
    &&& forall|i: int, j: int|
        0 <= i < j < nodes.len() ==> (#[trigger] nodes[i]).id != (#[trigger] nodes[j]).id
            && nodes[i].parent != Some(nodes[j].id)
}

/// Line `j` is nested directly under line `i`, and all lines between the two are
/// nested under line `i` too.
pub open spec fn hangs_under(nodes: Seq<Node>, i: int, j: int) -> bool {
    &&& 0 <= i < j < nodes.len()
    &&& nodes[j].parent == Some(nodes[i].id)
    &&& nodes[j].depth == nodes[i].depth + 1
    &&& forall|m: int| i < m < j ==> (#[trigger] nodes[m]).depth > nodes[i].depth
}

/// Line `j` is at the top level or hangs under its parent.
pub open spec fn placed(nodes: Seq<Node>, j: int) -> bool {
    if nodes[j].parent is None {
        nodes[j].depth == 0
    } else {
        exists|i: int| #[trigger] hangs_under(nodes, i, j)
    }
}

/// The list of lines is a tree read from top to bottom: every line stands below
/// its parent with nothing in between but what is nested under that parent.
pub open spec fn tidy(nodes: Seq<Node>) -> bool {
    forall|j: int| 0 <= j < nodes.len() ==> #[trigger] placed(nodes, j)
}

/// Some line is `id`, at this depth.
pub open spec fn open_at(nodes: Seq<Node>, id: u64, depth: usize) -> bool {
    exists|i: int| 0 <= i < nodes.len() && (#[trigger] nodes[i]).id == id && nodes[i].depth == depth
}

proof fn lemma_position(nodes: Seq<Node>, id: u64, at: int)
    requires
        0 <= at <= nodes.len(),
        forall|j: int| 0 <= j < at ==> (#[trigger] nodes[j]).id != id,
        at < nodes.len() ==> nodes[at].id == id,
    ensures
        position(nodes, id) == at,
    decreases nodes.len(),
{
    if at > 0 {
        assert(nodes[0].id != id);
        let rest = nodes.skip(1);
        assert forall|j: int| 0 <= j < at - 1 implies (#[trigger] rest[j]).id != id by {
            assert(rest[j] == nodes[j + 1]);
        }
        lemma_position(rest, id, at - 1);
    }
}

proof fn lemma_first_shallow(nodes: Seq<Node>, from: int, depth: usize)
    requires
        0 <= from <= nodes.len(),
    ensures
        from <= first_shallow(nodes, from, depth) <= nodes.len(),
        forall|m: int|
            from <= m < first_shallow(nodes, from, depth) ==> (#[trigger] nodes[m]).depth > depth,
        first_shallow(nodes, from, depth) < nodes.len() ==> nodes[first_shallow(
            nodes,
            from,
            depth,
        )].depth <= depth,
    decreases nodes.len() - from,
{
    if from < nodes.len() && nodes[from].depth > depth {
        lemma_first_shallow(nodes, from + 1, depth);
    }
}

proof fn lemma_surviving(nodes: Seq<Node>, id: u64, n: int)
    requires
        0 <= n <= nodes.len(),
    ensures
        forall|k: int|
            0 <= k < surviving(nodes, id, n).len() ==> 0 <= #[trigger] surviving(nodes, id, n)[k] < n
                && !under(nodes, nodes[surviving(nodes, id, n)[k]].id, id),
        forall|k: int, l: int|
            0 <= k < l < surviving(nodes, id, n).len() ==> #[trigger] surviving(nodes, id, n)[k]
                < #[trigger] surviving(nodes, id, n)[l],
        forall|i: int|
            0 <= i < n && !under(nodes, (#[trigger] nodes[i]).id, id) ==> surviving(
                nodes,
                id,
                n,
            ).contains(i),
    decreases n,
{
    if n > 0 {
        lemma_surviving(nodes, id, n - 1);
        let rest = surviving(nodes, id, n - 1);
        let all = surviving(nodes, id, n);
        assert forall|i: int| 0 <= i < n && !under(nodes, (#[trigger] nodes[i]).id, id) implies all.contains(
            i,
        ) by {
            if i == n - 1 {
                assert(all[all.len() - 1] == i);
            } else {
                assert(rest.contains(i));
                let k = choose|k: int| 0 <= k < rest.len() && rest[k] == i;
                assert(all[k] == i);
            }
        }
    }
}

/// Where a new line goes, seen from its parent: behind everything nested under
/// the parent, and before anything that is not.
proof fn lemma_place(nodes: Seq<Node>, parent: Option<u64>)
    ensures
        0 <= place_for(nodes, parent) <= nodes.len(),
        parent is Some && position(nodes, parent->0) < nodes.len() ==> {
            let at = position(nodes, parent->0);
            let pos = place_for(nodes, parent);
            &&& 0 <= at < pos
            &&& nodes[at].id == parent->0
            &&& forall|m: int| at < m < pos ==> (#[trigger] nodes[m]).depth > nodes[at].depth
            &&& pos < nodes.len() ==> nodes[pos].depth <= nodes[at].depth
        },
{
    if parent is Some {
        lemma_position_bounds(nodes, parent->0);
        let at = position(nodes, parent->0);
        if at < nodes.len() {
            lemma_first_shallow(nodes, at + 1, nodes[at].depth);
        }
    }
}

/// Putting a line in its place keeps the lines numbered.
proof fn lemma_insert_numbered(nodes: Seq<Node>, next_id: u64, node: Node)
    requires
        numbered(nodes, next_id),
        node.id == next_id,
        next_id < u64::MAX,
        node.parent is Some ==> node.parent->0 < next_id,
    ensures
        numbered(nodes.insert(place_for(nodes, node.parent), node), (next_id + 1) as u64),
{
    let parent = node.parent;
    let pos = place_for(nodes, parent);
    lemma_place(nodes, parent);
    let after = nodes.insert(pos, node);
    assert forall|i: int| 0 <= i < after.len() implies (#[trigger] after[i]).id < next_id + 1 && (
    after[i].parent is Some ==> after[i].parent->0 < after[i].id) by {
        if i < pos {
            assert(after[i] == nodes[i]);
        } else if i > pos {
            assert(after[i] == nodes[i - 1]);
        }
    }
    assert forall|i: int, j: int| 0 <= i < j < after.len() implies (#[trigger] after[i]).id != (
    #[trigger] after[j]).id && after[i].parent != Some(after[j].id) by {
        if j < pos {
            assert(after[i] == nodes[i] && after[j] == nodes[j]);
        } else if i > pos {
            assert(after[i] == nodes[i - 1] && after[j] == nodes[j - 1]);
        } else if i < pos && j > pos {
            assert(after[i] == nodes[i] && after[j] == nodes[j - 1]);
        } else if j == pos {
            assert(after[i] == nodes[i]);
        } else {
            assert(after[j] == nodes[j - 1]);
            if parent is Some && parent->0 == nodes[j - 1].id {
                lemma_position_of(nodes, j - 1);
            }
        }
    }
}

/// Putting a line in its place keeps the tree a tree.
#[verifier::spinoff_prover]
proof fn lemma_insert_tidy(nodes: Seq<Node>, next_id: u64, node: Node)
    requires
        numbered(nodes, next_id),
        tidy(nodes),
        match node.parent {
            None => node.depth == 0,
            Some(p) => node.depth > 0 && open_at(nodes, p, (node.depth - 1) as usize),
        },
    ensures
        tidy(nodes.insert(place_for(nodes, node.parent), node)),
{
    let parent = node.parent;
    let pos = place_for(nodes, parent);
    lemma_place(nodes, parent);
    let after = nodes.insert(pos, node);
    let home = if parent is Some {
        position(nodes, parent->0)
    } else {
        -1
    };
    if parent is Some {
        let h = choose|h: int|
            0 <= h < nodes.len() && (#[trigger] nodes[h]).id == parent->0 && nodes[h].depth
                == node.depth - 1;
        lemma_position_of(nodes, h);
        assert(home == h);
        assert forall|m: int| home < m < pos implies (#[trigger] after[m]).depth
            > after[home].depth by {
            assert(after[m] == nodes[m]);
        }
        assert(hangs_under(after, home, pos));
    }
    assert forall|j: int| 0 <= j < after.len() implies #[trigger] placed(after, j) by {
        if j != pos {
            let oj = if j < pos {
                j
            } else {
                j - 1
            };
            assert(after[j] == nodes[oj]);
            assert(placed(nodes, oj));
            if nodes[oj].parent is Some {
                let oi = choose|i: int| #[trigger] hangs_under(nodes, i, oj);
                lemma_still_hangs(nodes, node, pos, home, oi, oj);
            }
        }
    }
}

/// A line goes on hanging under its parent when another one is put in its place.
#[verifier::spinoff_prover]
proof fn lemma_still_hangs(nodes: Seq<Node>, node: Node, pos: int, home: int, oi: int, oj: int)
    requires
        0 <= pos <= nodes.len(),
        hangs_under(nodes, oi, oj),
        home == -1 ==> pos == nodes.len(),
        home != -1 ==> {
            &&& 0 <= home < pos
            &&& node.depth == nodes[home].depth + 1
            &&& forall|m: int| home < m < pos ==> (#[trigger] nodes[m]).depth > nodes[home].depth
            &&& pos < nodes.len() ==> nodes[pos].depth <= nodes[home].depth
        },
    ensures
        hangs_under(
            nodes.insert(pos, node),
            if oi < pos {
                oi
            } else {
                oi + 1
            },
            if oj < pos {
                oj
            } else {
                oj + 1
            },
        ),
{
    let after = nodes.insert(pos, node);
    let i = if oi < pos {
        oi
    } else {
        oi + 1
    };
    let j = if oj < pos {
        oj
    } else {
        oj + 1
    };
    assert(after[i] == nodes[oi]);
    assert(after[j] == nodes[oj]);
    if oi < pos && pos <= oj {
        assert(home != -1);
        if pos < oj {
            assert(nodes[pos].depth > nodes[oi].depth);
        }
        assert(oi != home);
        if oi > home {
            assert(nodes[oi].depth > nodes[home].depth);
        }
        assert(oi < home);
        assert(nodes[home].depth > nodes[oi].depth);
    }
    assert forall|m: int| i < m < j implies (#[trigger] after[m]).depth > after[i].depth by {
        if m < pos {
            assert(after[m] == nodes[m]);
        } else if m > pos {
            assert(after[m] == nodes[m - 1]);
        }
    }
}

proof fn lemma_position_bounds(nodes: Seq<Node>, id: u64)
    ensures
        0 <= position(nodes, id) <= nodes.len(),
        position(nodes, id) < nodes.len() ==> nodes[position(nodes, id)].id == id,
    decreases nodes.len(),
{
    if nodes.len() > 0 && nodes[0].id != id {
        lemma_position_bounds(nodes.skip(1), id);
    }
}

proof fn lemma_position_of(nodes: Seq<Node>, i: int)
    requires
        0 <= i < nodes.len(),
        forall|a: int, b: int|
            0 <= a < b < nodes.len() ==> (#[trigger] nodes[a]).id != (#[trigger] nodes[b]).id,
    ensures
        position(nodes, nodes[i].id) == i,
{
    lemma_position(nodes, nodes[i].id, i);
}

/// Taking a line out with everything under it keeps the lines numbered, and the
/// tree a tree.
proof fn lemma_without(nodes: Seq<Node>, next_id: u64, id: u64)
    requires
        numbered(nodes, next_id),
    ensures
        numbered(without(nodes, id), next_id),
        tidy(nodes) ==> tidy(without(nodes, id)),
{
    let n = nodes.len() as int;
    lemma_surviving(nodes, id, n);
    let idx = surviving(nodes, id, n);
    let after = without(nodes, id);
    assert forall|k: int| 0 <= k < after.len() implies #[trigger] after[k] == nodes[idx[k]] by {}
    assert forall|i: int, j: int| 0 <= i < j < after.len() implies (#[trigger] after[i]).id != (
    #[trigger] after[j]).id && after[i].parent != Some(after[j].id) by {
        assert(idx[i] < idx[j]);
        assert(nodes[idx[i]].id != nodes[idx[j]].id);
    }
    if tidy(nodes) {
        assert forall|k: int| 0 <= k < after.len() implies #[trigger] placed(after, k) by {
            let j = idx[k];
            assert(after[k] == nodes[j]);
            assert(placed(nodes, j));
            if nodes[j].parent is Some {
                let i = choose|i: int| #[trigger] hangs_under(nodes, i, j);
                assert(!under(nodes, nodes[i].id, id)) by {
                    if under(nodes, nodes[i].id, id) {
                        assert(nodes[j].parent->0 < nodes[j].id);
                        assert(under(nodes, nodes[j].id, id));
                    }
                }
                assert(idx.contains(i));
                let h = choose|h: int| 0 <= h < idx.len() && idx[h] == i;
                assert(h < k) by {
                    if h >= k {
                        assert(h == k || idx[k] < idx[h]);
                    }
                }
                assert forall|m: int| h < m < k implies (#[trigger] after[m]).depth
                    > after[h].depth by {
                    assert(idx[h] < idx[m] < idx[k]);
                    assert(nodes[idx[m]].depth > nodes[i].depth);
                }
                assert(hangs_under(after, h, k));
            }
        }
    }
}

/// Erasing what the last draw left behind.
pub open spec fn erase_ops(drawn: usize) -> Seq<OpView> {
    if drawn == 0 {
        Seq::empty()
    } else {
        seq![OpView::Erase(drawn as nat)]
    }
}

/// Hiding or showing the cursor, if that is not already its state.
pub open spec fn cursor_ops(hidden: bool, wanted: bool) -> Seq<OpView> {
    if hidden == wanted {
        Seq::empty()
    } else if wanted {
        seq![OpView::HideCursor]
    } else {
        seq![OpView::ShowCursor]
    }
}

/// What reaches the canvas of the steps of a redraw: all of them, or none where
/// there is nothing to draw on.
pub open spec fn reaching(canvas: Canvas, ops: Seq<OpView>) -> Seq<OpView> {
    if canvas is Silent {
        Seq::empty()
    } else {
        ops
    }
}

/// Writing a line, if there is one to write.
pub open spec fn said_ops(said: Option<String>) -> Seq<OpView> {
    match said {
        Some(line) => seq![OpView::Line(line@)],
        None => Seq::empty(),
    }
}

/// Everything a redraw needs.
#[derive(Debug)]
pub struct Screen {
    pub canvas: Canvas,
    pub nodes: Vec<Node>,
    pub next_id: u64,
    pub frame: usize,
    /// How many lines the last draw left on screen, and therefore how many the
    /// next one has to erase.
    pub drawn: usize,
    /// Whether this region is the one currently hiding the cursor.
    pub cursor_hidden: bool,
    /// What is to be done on the canvas, oldest first.
    pub queue: Vec<Op>,
}

/// `after` shows what it holds: the steps `said` and then those of a redraw have
/// been queued since `before`, and nothing is on screen but its lines.
pub open spec fn redrawn(before: Screen, after: Screen, said: Seq<OpView>, now: Moment) -> bool {
    let lines = region_lines(
        after.nodes@,
        after.frame,
        canvas_width(after.canvas) as nat,
        now,
    );
    &&& after.canvas == before.canvas
    &&& op_views(after.queue@) == op_views(before.queue@) + reaching(
        before.canvas,
        erase_ops(before.drawn) + said + cursor_ops(before.cursor_hidden, lines.len() > 0)
            + line_ops(lines),
    )
    &&& after.drawn == after.nodes@.len()
    &&& after.cursor_hidden == (after.nodes@.len() > 0)
}

proof fn lemma_queue_push(queue: Seq<Op>, op: Op)
    ensures
        op_views(queue.push(op)) == op_views(queue).push(op@),
{
    assert(op_views(queue.push(op)) =~= op_views(queue).push(op@));
}

impl Screen {
    /// The lines are numbered as they should be.
    pub open spec fn wf(&self) -> bool {
        numbered(self.nodes@, self.next_id)
    }

    fn new(canvas: Canvas) -> (r: Screen)
        ensures
            r.wf(),
            r.canvas == canvas,
            r.nodes@.len() == 0,
            r.next_id == 0,
            r.frame == 0,
            r.drawn == 0,
            !r.cursor_hidden,
            r.queue@.len() == 0,
    {
        Screen {
            canvas,
            nodes: Vec::new(),
            next_id: 0,
            frame: 0,
            drawn: 0,
            cursor_hidden: false,
            queue: Vec::new(),
        }
    }

    /// How wide a line may be before it wraps.
    fn width(&self) -> (r: usize)
        ensures
            r == canvas_width(self.canvas),
    {
        match self.canvas {
            Canvas::Terminal { columns } => match columns {
                Some(n) => n,
                None => FALLBACK_WIDTH,
            },
            Canvas::Writer { width } => width,
            Canvas::Silent => FALLBACK_WIDTH,
        }
    }

    /// Render every node to a line, without touching the terminal.
    fn render(&self, now: Moment) -> (r: Vec<String>)
        ensures
            texts(r@) == region_lines(
                self.nodes@,
                self.frame,
                canvas_width(self.canvas) as nat,
                now,
            ),
    {
        let width: usize = self.width();
        let mut r: Vec<String> = Vec::new();
        let mut i: usize = 0;
        while i < self.nodes.len()
            invariant
                i <= self.nodes@.len(),
                width == canvas_width(self.canvas),
                r@.len() == i,
                forall|j: int|
                    0 <= j < i ==> (#[trigger] r@[j])@ == line_text(
                        self.nodes@[j],
                        self.frame,
                        width as nat,
                        now,
                    ),
            decreases self.nodes@.len() - i,
        {
            r.push(render_node(&self.nodes[i], self.frame, width, now));
            i += 1;
        }
        assert(texts(r@) =~= region_lines(self.nodes@, self.frame, width as nat, now));
        r
    }

    /// Queue one step, if there is anything to draw on.
    fn emit(&mut self, op: Op)
        ensures
            op_views(final(self).queue@) == op_views(old(self).queue@) + reaching(
                old(self).canvas,
                seq![op@],
            ),
            final(self).canvas == old(self).canvas,
            final(self).nodes == old(self).nodes,
            final(self).next_id == old(self).next_id,
            final(self).frame == old(self).frame,
            final(self).drawn == old(self).drawn,
            final(self).cursor_hidden == old(self).cursor_hidden,
    {
        match self.canvas {
            Canvas::Silent => {
                assert(op_views(self.queue@) =~= op_views(self.queue@) + Seq::<OpView>::empty());
            },
            _ => {
                proof {
                    lemma_queue_push(self.queue@, op);
                    assert(op_views(self.queue@).push(op@) =~= op_views(self.queue@) + seq![op@]);
                }
                self.queue.push(op);
            },
        }
    }

    /// Erase the region, leaving the cursor where the region started.
    fn erase(&mut self)
        ensures
            op_views(final(self).queue@) == op_views(old(self).queue@) + reaching(
                old(self).canvas,
                erase_ops(old(self).drawn),
            ),
            final(self).drawn == 0,
            final(self).canvas == old(self).canvas,
            final(self).nodes == old(self).nodes,
            final(self).next_id == old(self).next_id,
            final(self).frame == old(self).frame,
            final(self).cursor_hidden == old(self).cursor_hidden,
    {
        if self.drawn == 0 {
            assert(op_views(self.queue@) =~= op_views(self.queue@) + Seq::<OpView>::empty());
            return;
        }
        let rows: usize = self.drawn;
        self.emit(Op::Erase(rows));
        self.drawn = 0;
    }

    /// Hide or show the cursor, if that is not already its state.
    fn set_cursor_hidden(&mut self, hidden: bool)
        ensures
            op_views(final(self).queue@) == op_views(old(self).queue@) + reaching(
                old(self).canvas,
                cursor_ops(old(self).cursor_hidden, hidden),
            ),
            final(self).cursor_hidden == hidden,
            final(self).canvas == old(self).canvas,
            final(self).nodes == old(self).nodes,
            final(self).next_id == old(self).next_id,
            final(self).frame == old(self).frame,
            final(self).drawn == old(self).drawn,
    {
        if hidden == self.cursor_hidden {
            assert(op_views(self.queue@) =~= op_views(self.queue@) + Seq::<OpView>::empty());
            return;
        }
        if hidden {
            self.emit(Op::HideCursor);
        } else {
            self.emit(Op::ShowCursor);
        }
        self.cursor_hidden = hidden;
    }

    /// Erase the region, write what `said` says above it, and draw it again.
    fn draw_below(&mut self, said: Option<String>, now: Moment)
        ensures
            redrawn(*old(self), *final(self), said_ops(said), now),
            final(self).nodes == old(self).nodes,
            final(self).next_id == old(self).next_id,
            final(self).frame == old(self).frame,
    {
        let ghost before = *self;
        let ghost words = said_ops(said);
        self.erase();
        match said {
            Some(line) => {
                self.emit(Op::Line(line));
            },
            None => {},
        }
        let ghost erased = erase_ops(before.drawn);
        assert(op_views(self.queue@) =~= op_views(before.queue@) + reaching(
            before.canvas,
            erased + words,
        ));
        let lines = self.render(now);
        let ghost shown = texts(lines@);
        assert(shown.len() == lines@.len());
        self.set_cursor_hidden(lines.len() > 0);
        let ghost head = erased + words + cursor_ops(before.cursor_hidden, shown.len() > 0);
        assert(op_views(self.queue@) =~= op_views(before.queue@) + reaching(before.canvas, head));
        let mut i: usize = 0;
        assert(line_ops(shown.take(0)) =~= Seq::<OpView>::empty());
        assert(head + line_ops(shown.take(0)) =~= head);
        while i < lines.len()
            invariant
                i <= lines@.len(),
                shown == texts(lines@),
                shown.len() == lines@.len(),
                op_views(self.queue@) == op_views(before.queue@) + reaching(
                    before.canvas,
                    head + line_ops(shown.take(i as int)),
                ),
                self.canvas == before.canvas,
                self.nodes == before.nodes,
                self.next_id == before.next_id,
                self.frame == before.frame,
                self.cursor_hidden == (lines@.len() > 0),
            decreases lines@.len() - i,
        {
            self.emit(Op::Line(lines[i].clone()));
            proof {
                assert(shown[i as int] == lines@[i as int]@);
                assert(line_ops(shown.take(i + 1)) =~= line_ops(shown.take(i as int)).push(
                    OpView::Line(shown[i as int]),
                ));
                assert(op_views(self.queue@) =~= op_views(before.queue@) + reaching(
                    before.canvas,
                    head + line_ops(shown.take(i + 1)),
                ));
            }
            i += 1;
        }
        assert(shown.take(shown.len() as int) =~= shown);
        self.drawn = lines.len();
    }

    /// One past the last node nested under `parent`.
    fn end_of_subtree(&self, parent: u64) -> (r: Option<usize>)
        ensures
            r is Some <==> position(self.nodes@, parent) < self.nodes@.len(),
            r is Some ==> r->0 == place_for(self.nodes@, Some(parent)) && r->0
                <= self.nodes@.len(),
    {
        match self.find(parent) {
            None => None,
            Some(start) => {
                let depth: usize = self.nodes[start].depth;
                assert(start < self.nodes.len());
                let mut end: usize = start + 1;
                proof {
                    lemma_place(self.nodes@, Some(parent));
                    lemma_first_shallow(self.nodes@, start + 1, depth);
                }
                while end < self.nodes.len() && self.nodes[end].depth > depth
                    invariant
                        start < end <= self.nodes@.len(),
                        first_shallow(self.nodes@, end as int, depth) == first_shallow(
                            self.nodes@,
                            start + 1,
                            depth,
                        ),
                    decreases self.nodes@.len() - end,
                {
                    end += 1;
                }
                Some(end)
            },
        }
    }

    /// Where the line `id` is.
    fn find(&self, id: u64) -> (r: Option<usize>)
        ensures
            r is Some <==> position(self.nodes@, id) < self.nodes@.len(),
            r is Some ==> r->0 == position(self.nodes@, id) && self.nodes@[r->0 as int].id == id,
            r is None ==> forall|j: int|
                0 <= j < self.nodes@.len() ==> (#[trigger] self.nodes@[j]).id != id,
    {
        let mut at: usize = 0;
        while at < self.nodes.len()
            invariant
                at <= self.nodes@.len(),
                forall|j: int| 0 <= j < at ==> (#[trigger] self.nodes@[j]).id != id,
            decreases self.nodes@.len() - at,
        {
            if self.nodes[at].id == id {
                proof {
                    lemma_position(self.nodes@, id, at as int);
                }
                return Some(at);
            }
            at += 1;
        }
        proof {
            lemma_position(self.nodes@, id, at as int);
        }
        None
    }

    /// Add a node, keeping the flat list in tree order.
    fn push(&mut self, parent: Option<u64>, depth: usize, label: String, now: Moment) -> (id: u64)
        requires
            old(self).wf(),
            old(self).next_id < u64::MAX,
            parent is Some ==> parent->0 < old(self).next_id,
        ensures
            id == old(self).next_id,
            final(self).wf(),
            final(self).next_id == id + 1,
            final(self).nodes@ == old(self).nodes@.insert(
                place_for(old(self).nodes@, parent),
                (Node { id, parent, depth, label, detail: Detail::Silent, started: now }),
            ),
            tidy(old(self).nodes@) && (match parent {
                None => depth == 0,
                Some(p) => depth > 0 && open_at(old(self).nodes@, p, (depth - 1) as usize),
            }) ==> tidy(final(self).nodes@),
            final(self).canvas == old(self).canvas,
            final(self).frame == old(self).frame,
            final(self).drawn == old(self).drawn,
            final(self).cursor_hidden == old(self).cursor_hidden,
            final(self).queue == old(self).queue,
    {
        let id: u64 = self.next_id;
        self.next_id = self.next_id + 1;
        let place: Option<usize> = match parent {
            Some(p) => self.end_of_subtree(p),
            None => None,
        };
        let node = Node { id, parent, depth, label, detail: Detail::Silent, started: now };
        proof {
            lemma_insert_numbered(self.nodes@, id, node);
            lemma_place(self.nodes@, parent);
            if tidy(self.nodes@) && (match parent {
                None => depth == 0,
                Some(p) => depth > 0 && open_at(self.nodes@, p, (depth - 1) as usize),
            }) {
                lemma_insert_tidy(self.nodes@, id, node);
            }
            assert(self.nodes@.insert(self.nodes@.len() as int, node) =~= self.nodes@.push(node));
        }
        match place {
            Some(index) => self.nodes.insert(index, node),
            None => self.nodes.push(node),
        }
        id
    }

    /// Drop `id` and every node descending from it.
    fn remove(&mut self, id: u64)
        requires
            old(self).wf(),
        ensures
            final(self).wf(),
            final(self).nodes@ == without(old(self).nodes@, id),
            tidy(old(self).nodes@) ==> tidy(final(self).nodes@),
            final(self).next_id == old(self).next_id,
            final(self).canvas == old(self).canvas,
            final(self).frame == old(self).frame,
            final(self).drawn == old(self).drawn,
            final(self).cursor_hidden == old(self).cursor_hidden,
            final(self).queue == old(self).queue,
    {
        let ghost all = self.nodes@;
        let mut doomed: Vec<u64> = Vec::new();
        let mut at: usize = 0;
        let ghost mut seen: int = 0;
        proof {
            lemma_without(all, self.next_id, id);
            assert(surviving(all, id, 0).map_values(|i: int| all[i]) + all.skip(0) =~= all);
        }
        while at < self.nodes.len()
            invariant
                numbered(all, self.next_id),
                0 <= seen <= all.len(),
                at == surviving(all, id, seen).len(),
                self.nodes@ == surviving(all, id, seen).map_values(|i: int| all[i]) + all.skip(
                    seen,
                ),
                forall|y: u64| #[trigger]
                    doomed@.contains(y) <==> exists|j: int|
                        0 <= j < seen && (#[trigger] all[j]).id == y && under(all, y, id),
                self.next_id == old(self).next_id,
                self.canvas == old(self).canvas,
                self.frame == old(self).frame,
                self.drawn == old(self).drawn,
                self.cursor_hidden == old(self).cursor_hidden,
                self.queue == old(self).queue,
            decreases all.len() - seen,
        {
            let ghost kept = surviving(all, id, seen).map_values(|i: int| all[i]);
            assert(seen < all.len());
            assert(self.nodes@[at as int] == all[seen]);
            let own: u64 = self.nodes[at].id;
            let goes = own == id || match self.nodes[at].parent {
                Some(p) => p == id || listed(&doomed, p),
                None => false,
            };
            proof {
                assert(goes == under(all, own, id)) by {
                    lemma_under_step(all, self.next_id, seen, id);
                    if all[seen].parent is Some {
                        let p = all[seen].parent->0;
                        if p != id && under(all, p, id) {
                            lemma_under_is_open(all, p, id);
                            let j = choose|j: int|
                                0 <= j < all.len() && (#[trigger] all[j]).id == p;
                            assert(j < seen) by {
                                if j > seen {
                                    assert(all[seen].parent != Some(all[j].id));
                                }
                            }
                            assert(doomed@.contains(p));
                        }
                    }
                }
            }
            let ghost doomed_before = doomed@;
            if goes {
                doomed.push(own);
                self.nodes.remove(at);
                proof {
                    assert(self.nodes@ =~= kept + all.skip(seen + 1));
                    assert forall|y: u64| #[trigger] doomed@.contains(y) <==> exists|j: int|
                        0 <= j < seen + 1 && (#[trigger] all[j]).id == y && under(all, y, id) by {
                        if doomed@.contains(y) {
                            if y != own {
                                let m = choose|m: int| 0 <= m < doomed@.len() && doomed@[m] == y;
                                assert(doomed_before[m] == y);
                                assert(doomed_before.contains(y));
                            } else {
                                assert(all[seen].id == y);
                            }
                        }
                        if exists|j: int|
                            0 <= j < seen + 1 && (#[trigger] all[j]).id == y && under(all, y, id) {
                            if y == own {
                                assert(doomed@[doomed@.len() - 1] == y);
                            } else {
                                let j = choose|j: int|
                                    0 <= j < seen + 1 && (#[trigger] all[j]).id == y && under(
                                        all,
                                        y,
                                        id,
                                    );
                                assert(j < seen);
                                assert(doomed_before.contains(y));
                                let m = choose|m: int|
                                    0 <= m < doomed_before.len() && doomed_before[m] == y;
                                assert(doomed@[m] == y);
                            }
                        }
                    }
                }
            } else {
                proof {
                    assert(surviving(all, id, seen + 1).map_values(|i: int| all[i]) + all.skip(
                        seen + 1,
                    ) =~= kept + all.skip(seen));
                }
                at += 1;
            }
            proof {
                seen = seen + 1;
            }
        }
        proof {
            lemma_surviving(all, id, seen);
            assert(seen == all.len());
            assert(self.nodes@ =~= without(all, id));
        }
    }
}

/// A line goes when it is the one asked for, or the one it is nested under goes.
proof fn lemma_under_step(nodes: Seq<Node>, next_id: u64, at: int, id: u64)
    requires
        numbered(nodes, next_id),
        0 <= at < nodes.len(),
    ensures
        under(nodes, nodes[at].id, id) <==> nodes[at].id == id || (nodes[at].parent is Some
            && under(nodes, nodes[at].parent->0, id)),
{
    let x = nodes[at].id;
    if under(nodes, x, id) && x != id {
        let j = choose|j: int|
            0 <= j < nodes.len() && (#[trigger] nodes[j]).id == x && nodes[j].parent is Some
                && nodes[j].parent->0 < x && under(nodes, nodes[j].parent->0, id);
        assert(j == at);
    }
    if nodes[at].parent is Some && under(nodes, nodes[at].parent->0, id) {
        assert(nodes[at].id == x && nodes[at].parent->0 < x);
    }
}

/// What is nested under a line is open itself.
proof fn lemma_under_is_open(nodes: Seq<Node>, x: u64, id: u64)
    requires
        under(nodes, x, id),
        x != id,
    ensures
        exists|j: int| 0 <= j < nodes.len() && (#[trigger] nodes[j]).id == x,
{
}

fn listed(list: &Vec<u64>, x: u64) -> (r: bool)
    ensures
        r == list@.contains(x),
{
    let mut i: usize = 0;
    while i < list.len()
        invariant
            i <= list@.len(),
            forall|j: int| 0 <= j < i ==> list@[j] != x,
        decreases list@.len() - i,
    {
        if list[i] == x {
            return true;
        }
        i += 1;
    }
    false
}

/// A live region at the bottom of the terminal.
#[derive(Debug)]
pub struct Progress {
    pub screen: Screen,
    /// Whether lines can be opened at all.
    pub live: bool,
}

/// A single line of the region, held by whoever is doing the work.
#[derive(Debug, PartialEq, Eq, Structural)]
pub struct Task {
    /// `None` when the region is disabled, which makes every method a no-op.
    pub id: Option<u64>,
    pub depth: usize,
    /// Whether closing this removes the line. False for a [`Task::handle`], which
    /// refers to a line somebody else owns.
    pub owns_line: bool,
}

/// `after` is `before` with the line `node` put in its place, and drawn.
pub open spec fn opened(before: Progress, after: Progress, node: Node, now: Moment) -> bool {
    &&& after.live == before.live
    &&& after.screen.nodes@ == before.screen.nodes@.insert(
        place_for(before.screen.nodes@, node.parent),
        node,
    )
    &&& after.screen.next_id == before.screen.next_id + 1
    &&& after.screen.frame == before.screen.frame
    &&& redrawn(before.screen, after.screen, Seq::empty(), now)
}

/// The lines once what line `id` says after its label is replaced by `detail`.
pub open spec fn described(nodes: Seq<Node>, id: u64, detail: Detail) -> Seq<Node> {
    let at = position(nodes, id);
    if at < nodes.len() {
        nodes.update(at, Node { detail, ..nodes[at] })
    } else {
        nodes
    }
}

/// `after` is `before` with other lines, drawn.
pub open spec fn changed(before: Progress, after: Progress, nodes: Seq<Node>, now: Moment) -> bool {
    &&& after.live == before.live
    &&& after.screen.nodes@ == nodes
    &&& after.screen.next_id == before.screen.next_id
    &&& after.screen.frame == before.screen.frame
    &&& redrawn(before.screen, after.screen, Seq::empty(), now)
}

impl Progress {
    /// The region is in a state it can go on from.
    pub open spec fn wf(&self) -> bool {
        &&& self.screen.wf()
        &&& !self.live ==> self.screen.nodes@.len() == 0 && self.screen.drawn == 0
            && !self.screen.cursor_hidden
    }

    /// A region on a terminal, if there is one: a redirected or piped output has
    /// nobody watching it redraw.
    pub fn to_terminal(is_terminal: bool, columns: Option<usize>) -> (r: Progress)
        ensures
            r.wf(),
            r.live == is_terminal,
            r.screen.canvas == (if is_terminal {
                Canvas::Terminal { columns }
            } else {
                Canvas::Writer { width: FALLBACK_WIDTH }
            }),
            r.screen.nodes@.len() == 0,
            r.screen.queue@.len() == 0,
            r.screen.next_id == 0,
            r.screen.frame == 0,
            r.screen.drawn == 0,
            !r.screen.cursor_hidden,
    {
        if is_terminal {
            Progress { screen: Screen::new(Canvas::Terminal { columns }), live: true }
        } else {
            Progress::passthrough()
        }
    }

    /// A region that draws nothing, forwarding log lines.
    pub fn disabled() -> (r: Progress)
        ensures
            r.wf(),
            !r.live,
            r.screen.canvas == (Canvas::Writer { width: FALLBACK_WIDTH }),
            r.screen.nodes@.len() == 0,
            r.screen.queue@.len() == 0,
            r.screen.next_id == 0,
            r.screen.frame == 0,
            r.screen.drawn == 0,
            !r.screen.cursor_hidden,
    {
        Progress::passthrough()
    }

    /// A region drawn at a fixed `width`.
    pub fn to_writer(width: usize) -> (r: Progress)
        ensures
            r.wf(),
            r.live,
            r.screen.canvas == (Canvas::Writer { width }),
            r.screen.nodes@.len() == 0,
            r.screen.queue@.len() == 0,
            r.screen.next_id == 0,
            r.screen.frame == 0,
            r.screen.drawn == 0,
            !r.screen.cursor_hidden,
    {
        Progress { screen: Screen::new(Canvas::Writer { width }), live: true }
    }

    /// Something that takes log lines and shows no region.
    pub fn passthrough() -> (r: Progress)
        ensures
            r.wf(),
            !r.live,
            r.screen.canvas == (Canvas::Writer { width: FALLBACK_WIDTH }),
            r.screen.nodes@.len() == 0,
            r.screen.queue@.len() == 0,
            r.screen.next_id == 0,
            r.screen.frame == 0,
            r.screen.drawn == 0,
            !r.screen.cursor_hidden,
    {
        Progress { screen: Screen::new(Canvas::Writer { width: FALLBACK_WIDTH }), live: false }
    }

    /// A region that tracks nodes but draws nothing.
    pub fn silent() -> (r: Progress)
        ensures
            r.wf(),
            r.live,
            r.screen.canvas is Silent,
            r.screen.nodes@.len() == 0,
            r.screen.queue@.len() == 0,
            r.screen.next_id == 0,
            r.screen.frame == 0,
            r.screen.drawn == 0,
            !r.screen.cursor_hidden,
    {
        Progress { screen: Screen::new(Canvas::Silent), live: true }
    }

    /// Register a node and return the handle that owns it.
    fn open(&mut self, parent: Option<u64>, depth: usize, label: String, now: Moment) -> (r: Task)
        requires
            old(self).wf(),
            old(self).screen.next_id < u64::MAX,
            parent is Some ==> parent->0 < old(self).screen.next_id,
        ensures
            final(self).wf(),
            r == (Task {
                id: if old(self).live {
                    Some(old(self).screen.next_id)
                } else {
                    None
                },
                depth,
                owns_line: true,
            }),
            !old(self).live ==> *final(self) == *old(self),
            old(self).live ==> opened(
                *old(self),
                *final(self),
                (Node {
                    id: old(self).screen.next_id,
                    parent,
                    depth,
                    label,
                    detail: Detail::Silent,
                    started: now,
                }),
                now,
            ),
            tidy(old(self).screen.nodes@) && (match parent {
                None => depth == 0,
                Some(p) => depth > 0 && open_at(old(self).screen.nodes@, p, (depth - 1) as usize),
            }) ==> tidy(final(self).screen.nodes@),
    {
        if !self.live {
            return Task { id: None, depth, owns_line: true };
        }
        let id: u64 = self.screen.push(parent, depth, label, now);
        self.screen.draw_below(None, now);
        Task { id: Some(id), depth, owns_line: true }
    }

    /// Open a top-level line, for a package.
    pub fn task(&mut self, label: String, now: Moment) -> (r: Task)
        requires
            old(self).wf(),
            old(self).screen.next_id < u64::MAX,
        ensures
            final(self).wf(),
            r == (Task {
                id: if old(self).live {
                    Some(old(self).screen.next_id)
                } else {
                    None
                },
                depth: 0,
                owns_line: true,
            }),
            !old(self).live ==> *final(self) == *old(self),
            old(self).live ==> opened(
                *old(self),
                *final(self),
                (Node {
                    id: old(self).screen.next_id,
                    parent: None,
                    depth: 0,
                    label,
                    detail: Detail::Silent,
                    started: now,
                }),
                now,
            ),
            tidy(old(self).screen.nodes@) ==> tidy(final(self).screen.nodes@),
    {
        self.open(None, 0, label, now)
    }

    /// The lines the region would draw right now; none when it is disabled.
    pub fn snapshot(&self, now: Moment) -> (r: Vec<String>)
        ensures
            texts(r@) == (if self.live {
                region_lines(
                    self.screen.nodes@,
                    self.screen.frame,
                    canvas_width(self.screen.canvas) as nat,
                    now,
                )
            } else {
                Seq::empty()
            }),
    {
        if !self.live {
            let none: Vec<String> = Vec::new();
            assert(texts(none@) =~= Seq::<Seq<char>>::empty());
            return none;
        }
        self.screen.render(now)
    }

    /// The current tree as wire types.
    pub fn nodes(&self) -> (r: Vec<ProgressNode>)
        ensures
            r@.len() == self.screen.nodes@.len(),
            forall|i: int|
                0 <= i < r@.len() ==> on_the_wire(self.screen.nodes@[i], #[trigger] r@[i]),
    {
        let mut r: Vec<ProgressNode> = Vec::new();
        let mut i: usize = 0;
        while i < self.screen.nodes.len()
            invariant
                i <= self.screen.nodes@.len(),
                r@.len() == i,
                forall|j: int| 0 <= j < i ==> on_the_wire(self.screen.nodes@[j], #[trigger] r@[j]),
            decreases self.screen.nodes@.len() - i,
        {
            r.push(self.screen.nodes[i].to_wire());
            i += 1;
        }
        r
    }

    /// Advance the spinner one frame and redraw.
    pub fn tick(&mut self, now: Moment)
        requires
            old(self).wf(),
        ensures
            final(self).wf(),
            !old(self).live ==> *final(self) == *old(self),
            old(self).live ==> {
                &&& final(self).live
                &&& final(self).screen.nodes@ == old(self).screen.nodes@
                &&& final(self).screen.next_id == old(self).screen.next_id
                &&& final(self).screen.frame == (if old(self).screen.frame == usize::MAX {
                    0
                } else {
                    old(self).screen.frame + 1
                })
                &&& redrawn(old(self).screen, final(self).screen, Seq::empty(), now)
            },
    {
        if !self.live {
            return;
        }
        self.screen.frame = self.screen.frame.wrapping_add(1);
        self.screen.draw_below(None, now);
    }

    /// Write `line` as scrollback above the region.
    ///
    /// The region is erased, the line is written where it will scroll away
    /// normally, and the region is drawn again underneath.
    pub fn println(&mut self, line: &str, now: Moment)
        requires
            old(self).wf(),
        ensures
            final(self).wf(),
            final(self).live == old(self).live,
            final(self).screen.nodes@ == old(self).screen.nodes@,
            final(self).screen.next_id == old(self).screen.next_id,
            final(self).screen.frame == old(self).screen.frame,
            redrawn(old(self).screen, final(self).screen, seq![OpView::Line(line@)], now),
    {
        self.screen.draw_below(Some(line.to_owned()), now);
    }

    /// Remove a line and everything nested under it.
    fn close(&mut self, id: u64, now: Moment)
        requires
            old(self).wf(),
        ensures
            final(self).wf(),
            changed(*old(self), *final(self), without(old(self).screen.nodes@, id), now),
            tidy(old(self).screen.nodes@) ==> tidy(final(self).screen.nodes@),
    {
        proof {
            lemma_surviving(self.screen.nodes@, id, self.screen.nodes@.len() as int);
        }
        self.screen.remove(id);
        self.screen.draw_below(None, now);
    }

    /// Replace what a line says after its label.
    fn describe(&mut self, id: u64, detail: Detail, now: Moment)
        requires
            old(self).wf(),
        ensures
            final(self).wf(),
            changed(
                *old(self),
                *final(self),
                described(old(self).screen.nodes@, id, detail),
                now,
            ),
            tidy(old(self).screen.nodes@) ==> tidy(final(self).screen.nodes@),
    {
        let ghost before = self.screen.nodes@;
        match self.screen.find(id) {
            Some(at) => {
                self.screen.nodes[at].detail = detail;
                proof {
                    let after = self.screen.nodes@;
                    assert(after =~= described(before, id, detail));
                    assert forall|j: int| 0 <= j < after.len() implies (#[trigger] after[j]).id
                        == before[j].id && after[j].parent == before[j].parent && after[j].depth
                        == before[j].depth by {}
                    if tidy(before) {
                        assert forall|j: int| 0 <= j < after.len() implies #[trigger] placed(
                            after,
                            j,
                        ) by {
                            assert(placed(before, j));
                            if after[j].parent is Some {
                                let i = choose|i: int| #[trigger] hangs_under(before, i, j);
                                assert(hangs_under(after, i, j));
                            }
                        }
                    }
                }
            },
            None => {},
        }
        self.screen.draw_below(None, now);
    }

    /// Clear the region and give the cursor back: what is done when the work is
    /// over.
    pub fn finish(&mut self)
        requires
            old(self).wf(),
        ensures
            !old(self).live ==> *final(self) == *old(self),
            old(self).live ==> op_views(final(self).screen.queue@) == op_views(
                old(self).screen.queue@,
            ) + reaching(
                old(self).screen.canvas,
                erase_ops(old(self).screen.drawn) + cursor_ops(
                    old(self).screen.cursor_hidden,
                    false,
                ),
            ),
            final(self).wf(),
            final(self).screen.drawn == 0,
            !final(self).screen.cursor_hidden,
            final(self).screen.nodes@ == old(self).screen.nodes@,
            final(self).screen.next_id == old(self).screen.next_id,
            final(self).screen.frame == old(self).screen.frame,
            final(self).screen.canvas == old(self).screen.canvas,
            final(self).live == old(self).live,
    {
        if !self.live {
            return;
        }
        let ghost before = self.screen;
        self.screen.erase();
        self.screen.set_cursor_hidden(false);
        assert(op_views(self.screen.queue@) =~= op_views(before.queue@) + reaching(
            before.canvas,
            erase_ops(before.drawn) + cursor_ops(before.cursor_hidden, false),
        ));
    }

    /// Take what is to be done on the canvas.
    pub fn take_ops(&mut self) -> (r: Vec<Op>)
        ensures
            r@ == old(self).screen.queue@,
            final(self).screen.queue@.len() == 0,
            final(self).live == old(self).live,
            final(self).screen.canvas == old(self).screen.canvas,
            final(self).screen.nodes@ == old(self).screen.nodes@,
            final(self).screen.next_id == old(self).screen.next_id,
            final(self).screen.frame == old(self).screen.frame,
            final(self).screen.drawn == old(self).screen.drawn,
            final(self).screen.cursor_hidden == old(self).screen.cursor_hidden,
    {
        let mut r: Vec<Op> = Vec::new();
        r.append(&mut self.screen.queue);
        assert(r@ =~= old(self).screen.queue@);
        r
    }

    /// The terminal has this many columns now.
    pub fn resize(&mut self, columns: Option<usize>)
        ensures
            final(self).screen.canvas == (match old(self).screen.canvas {
                Canvas::Terminal { columns: _ } => Canvas::Terminal { columns },
                other => other,
            }),
            final(self).live == old(self).live,
            final(self).screen.nodes == old(self).screen.nodes,
            final(self).screen.next_id == old(self).screen.next_id,
            final(self).screen.frame == old(self).screen.frame,
            final(self).screen.drawn == old(self).screen.drawn,
            final(self).screen.cursor_hidden == old(self).screen.cursor_hidden,
            final(self).screen.queue == old(self).screen.queue,
    {
        match self.screen.canvas {
            Canvas::Terminal { columns: _ } => {
                self.screen.canvas = Canvas::Terminal { columns };
            },
            _ => {},
        }
    }
}

impl Task {
    /// A task attached to no region. Every method on it does nothing.
    pub fn detached() -> (r: Task)
        ensures
            r == (Task { id: None, depth: 0, owns_line: true }),
    {
        Task { id: None, depth: 0, owns_line: true }
    }

    /// A second reference to this same line, which does not close it.
    pub fn handle(&self) -> (r: Task)
        ensures
            r == (Task { id: self.id, depth: self.depth, owns_line: false }),
    {
        Task { id: self.id, depth: self.depth, owns_line: false }
    }

    /// Whether a region is actually tracking this line.
    pub fn is_live(&self) -> (r: bool)
        ensures
            r == (self.id is Some),
    {
        self.id.is_some()
    }

    /// Open a line nested under this one.
    pub fn child(&self, progress: &mut Progress, label: String, now: Moment) -> (r: Task)
        requires
            old(progress).wf(),
            self.depth < usize::MAX,
            old(progress).screen.next_id < u64::MAX,
            self.id is Some ==> self.id->0 < old(progress).screen.next_id && old(progress).live,
        ensures
            final(progress).wf(),
            self.id is None ==> r == (Task { id: None, depth: 0, owns_line: true })
                && *final(progress) == *old(progress),
            self.id is Some ==> {
                &&& r == (Task {
                    id: Some(old(progress).screen.next_id),
                    depth: (self.depth + 1) as usize,
                    owns_line: true,
                })
                &&& opened(
                    *old(progress),
                    *final(progress),
                    Node {
                        id: old(progress).screen.next_id,
                        parent: self.id,
                        depth: (self.depth + 1) as usize,
                        label,
                        detail: Detail::Silent,
                        started: now,
                    },
                    now,
                )
                &&& tidy(old(progress).screen.nodes@) && open_at(
                    old(progress).screen.nodes@,
                    self.id->0,
                    self.depth,
                ) ==> tidy(final(progress).screen.nodes@)
            },
    {
        match self.id {
            Some(parent) => progress.open(Some(parent), self.depth + 1, label, now),
            None => Task::detached(),
        }
    }

    /// Say what this work is doing now, replacing whatever it said before.
    pub fn set_message(&self, progress: &mut Progress, message: &str, now: Moment)
        requires
            old(progress).wf(),
        ensures
            final(progress).wf(),
            self.id is None ==> *final(progress) == *old(progress),
            self.id is Some ==> exists|text: String|
                text@ == sanitised(message@, MESSAGE_CAP as nat) && #[trigger] changed(
                    *old(progress),
                    *final(progress),
                    described(old(progress).screen.nodes@, self.id->0, Detail::Message(text)),
                    now,
                ),
            tidy(old(progress).screen.nodes@) ==> tidy(final(progress).screen.nodes@),
    {
        match self.id {
            Some(id) => {
                let text = sanitise(message, MESSAGE_CAP);
                progress.describe(id, Detail::Message(text), now);
            },
            None => {},
        }
    }

    /// Report a transfer: bytes so far, and the total if one is known.
    pub fn set_bytes(&self, progress: &mut Progress, done: u64, total: Option<u64>, now: Moment)
        requires
            old(progress).wf(),
        ensures
            final(progress).wf(),
            self.id is None ==> *final(progress) == *old(progress),
            self.id is Some ==> changed(
                *old(progress),
                *final(progress),
                described(old(progress).screen.nodes@, self.id->0, Detail::Bytes { done, total }),
                now,
            ),
            tidy(old(progress).screen.nodes@) ==> tidy(final(progress).screen.nodes@),
    {
        match self.id {
            Some(id) => {
                progress.describe(id, Detail::Bytes { done, total }, now);
            },
            None => {},
        }
    }

    /// The work is over: its line goes, along with any lines opened under it,
    /// unless somebody else owns it.
    pub fn close(self, progress: &mut Progress, now: Moment)
        requires
            old(progress).wf(),
        ensures
            final(progress).wf(),
            !(self.owns_line && self.id is Some) ==> *final(progress) == *old(progress),
            self.owns_line && self.id is Some ==> changed(
                *old(progress),
                *final(progress),
                without(old(progress).screen.nodes@, self.id->0),
                now,
            ),
            tidy(old(progress).screen.nodes@) ==> tidy(final(progress).screen.nodes@),
    {
        match self.id {
            Some(id) => {
                if self.owns_line {
                    progress.close(id, now);
                }
            },
            None => {},
        }
    }
}

/// Closing a line leaves no orphans behind: nothing that is left is nested under a
/// line that went.
pub proof fn lemma_no_orphans(nodes: Seq<Node>, next_id: u64, id: u64, k: int)
    requires
        numbered(nodes, next_id),
        0 <= k < without(nodes, id).len(),
        without(nodes, id)[k].parent is Some,
    ensures
        !under(nodes, without(nodes, id)[k].parent->0, id),
{
    lemma_surviving(nodes, id, nodes.len() as int);
    let i = surviving(nodes, id, nodes.len() as int)[k];
    assert(without(nodes, id)[k] == nodes[i]);
    lemma_under_step(nodes, next_id, i, id);
}

/// Closing a line that was just opened gives back the lines there were.
pub proof fn lemma_open_then_close(nodes: Seq<Node>, next_id: u64, node: Node)
    requires
        numbered(nodes, next_id),
        node.id == next_id,
    ensures
        without(nodes.insert(place_for(nodes, node.parent), node), node.id) == nodes,
{
    lemma_place(nodes, node.parent);
    let pos = place_for(nodes, node.parent);
    let after = nodes.insert(pos, node);
    assert forall|i: int| 0 <= i < after.len() && i != pos implies !under(
        after,
        (#[trigger] after[i]).id,
        node.id,
    ) by {
        if i < pos {
            assert(after[i] == nodes[i]);
        } else {
            assert(after[i] == nodes[i - 1]);
        }
        lemma_not_under_fresh(nodes, next_id, node, pos, after[i].id);
    }
    lemma_survive_but_one(after, node.id, pos, after.len() as int);
    let idx = surviving(after, node.id, after.len() as int);
    assert(without(after, node.id) =~= nodes);
}

proof fn lemma_not_under_fresh(nodes: Seq<Node>, next_id: u64, node: Node, pos: int, x: u64)
    requires
        numbered(nodes, next_id),
        node.id == next_id,
        0 <= pos <= nodes.len(),
        x < next_id,
    ensures
        !under(nodes.insert(pos, node), x, node.id),
    decreases x,
{
    let after = nodes.insert(pos, node);
    if under(after, x, node.id) {
        let j = choose|j: int|
            0 <= j < after.len() && (#[trigger] after[j]).id == x && after[j].parent is Some
                && after[j].parent->0 < x && under(after, after[j].parent->0, node.id);
        lemma_not_under_fresh(nodes, next_id, node, pos, after[j].parent->0);
    }
}

proof fn lemma_survive_but_one(nodes: Seq<Node>, id: u64, pos: int, n: int)
    requires
        0 <= pos < nodes.len(),
        0 <= n <= nodes.len(),
        nodes[pos].id == id,
        forall|i: int|
            0 <= i < nodes.len() && i != pos ==> !under(nodes, (#[trigger] nodes[i]).id, id),
    ensures
        surviving(nodes, id, n).len() == (if n <= pos {
            n
        } else {
            n - 1
        }),
        forall|k: int|
            0 <= k < surviving(nodes, id, n).len() ==> #[trigger] surviving(nodes, id, n)[k] == (
            if k < pos {
                k
            } else {
                k + 1
            }),
    decreases n,
{
    if n > 0 {
        lemma_survive_but_one(nodes, id, pos, n - 1);
        assert(under(nodes, nodes[pos].id, id));
        if n - 1 != pos {
            assert(!under(nodes, nodes[n - 1].id, id));
        }
    }
}

/// The digits of a number may stand in a line.
pub proof fn lemma_decimal_is_plain(n: nat)
    ensures
        forall|i: int| 0 <= i < decimal(n).len() ==> is_plain(#[trigger] decimal(n)[i]),
    decreases n,
{
    if n >= 10 {
        lemma_decimal_is_plain(n / 10);
    }
    assert forall|i: int| 0 <= i < decimal(n).len() implies is_plain(#[trigger] decimal(n)[i]) by {
        if n >= 10 && i < decimal(n).len() - 1 {
            assert(decimal(n)[i] == decimal(n / 10)[i]);
        } else {
            assert(decimal(n)[i] == crate::text::digit(n % 10));
        }
    }
}

/// Nothing that stands in a line moves the cursor out of it, whatever its label
/// and its message hold.
pub proof fn lemma_line_is_plain(n: Node, frame: usize, width: nat, now: Moment)
    ensures
        forall|i: int|
            0 <= i < line_text(n, frame, width, now).len() ==> is_plain(
                #[trigger] line_text(n, frame, width, now)[i],
            ),
{
    let nanos = if now.nanos >= n.started.nanos {
        (now.nanos - n.started.nanos) as nat
    } else {
        0
    };
    let seconds = nanos / (SECOND as nat);
    let tenths = rounded_tenths(nanos);
    lemma_decimal_is_plain(tenths / 10);
    lemma_decimal_is_plain(tenths % 10);
    lemma_decimal_is_plain(seconds / 60);
    lemma_decimal_is_plain(seconds % 60);
    reveal_strlit(".");
    reveal_strlit("s");
    reveal_strlit("m");
    reveal_strlit("0");
    reveal_strlit("");
    reveal_strlit("[");
    reveal_strlit("]");
    assert forall|i: int| 0 <= i < right_text(n, now).len() implies is_plain(
        #[trigger] right_text(n, now)[i],
    ) by {}
    lemma_collapsed_plain(
        spaces(n.depth as nat * INDENT as nat).push(spinner(frame)) + " "@ + n.label@ + detail_text(
            n.detail,
        ),
    );
}

/// Where the line that holds position `i` ends: at the next line feed, or at the
/// end.
pub open spec fn line_end(text: Seq<char>, i: int) -> int
    decreases text.len() - i,
{
    if i < 0 || i >= text.len() || text[i] == '\n' {
        i
    } else {
        line_end(text, i + 1)
    }
}

/// `line` without the carriage return in front of its line feed.
pub open spec fn without_return(line: Seq<char>) -> Seq<char> {
    if line.len() > 0 && line.last() == '\r' {
        line.drop_last()
    } else {
        line
    }
}

/// A line that says nothing.
pub open spec fn is_blank(line: Seq<char>) -> bool {
    forall|i: int| 0 <= i < line.len() ==> is_space_char(#[trigger] line[i])
}

/// The lines of `text` from position `i` on that say something. A line ends with
/// a line feed, with or without a carriage return before it.
pub open spec fn spoken_lines(text: Seq<char>, i: int) -> Seq<Seq<char>>
    decreases text.len() - i,
    when 0 <= i
    via spoken_lines_decreases
{
    if i >= text.len() {
        Seq::empty()
    } else {
        let end = line_end(text, i);
        let line = if end < text.len() {
            without_return(text.subrange(i, end))
        } else {
            text.subrange(i, end)
        };
        let rest = if end < text.len() {
            spoken_lines(text, end + 1)
        } else {
            Seq::empty()
        };
        if is_blank(line) {
            rest
        } else {
            seq![line] + rest
        }
    }
}

#[via_fn]
proof fn spoken_lines_decreases(text: Seq<char>, i: int) {
    if i < text.len() {
        lemma_line_end(text, i);
    }
}

proof fn lemma_line_end(text: Seq<char>, i: int)
    requires
        0 <= i <= text.len(),
    ensures
        i <= line_end(text, i) <= text.len(),
    decreases text.len() - i,
{
    if i < text.len() && text[i] != '\n' {
        lemma_line_end(text, i + 1);
    }
}

/// Collects what a logger writes until a record is complete.
#[derive(Debug)]
pub struct LogWriter {
    pub buffer: Vec<u8>,
}

impl LogWriter {
    /// A writer that has been given nothing.
    pub fn new() -> (r: LogWriter)
        ensures
            r.buffer@.len() == 0,
    {
        LogWriter { buffer: Vec::new() }
    }

    /// Keep `bytes`, all of them.
    pub fn write(&mut self, bytes: &[u8]) -> (count: usize)
        ensures
            final(self).buffer@ == old(self).buffer@ + bytes@,
            count == bytes@.len(),
    {
        self.buffer.extend_from_slice(bytes);
        assert(self.buffer@ =~= old(self).buffer@ + bytes@);
        bytes.len()
    }

    /// Hand out every line that was kept, and start again.
    pub fn emit(&mut self) -> (lines: Vec<String>)
        ensures
            texts(lines@) == spoken_lines(lossy(old(self).buffer@), 0),
            final(self).buffer@.len() == 0,
    {
        let text = characters(lossy_text(self.buffer.as_slice()).as_str());
        let mut lines: Vec<String> = Vec::new();
        let mut i: usize = 0;
        assert(texts(lines@) + spoken_lines(text@, 0) =~= spoken_lines(text@, 0));
        while i < text.len()
            invariant
                i <= text@.len(),
                texts(lines@) + spoken_lines(text@, i as int) == spoken_lines(text@, 0),
                self.buffer == old(self).buffer,
            decreases text@.len() - i,
        {
            let mut end: usize = i;
            while end < text.len() && text[end] != '\n'
                invariant
                    i <= end <= text@.len(),
                    line_end(text@, i as int) == line_end(text@, end as int),
                decreases text@.len() - end,
            {
                end += 1;
            }
            let stop: usize = if end < text.len() && end > i && text[end - 1] == '\r' {
                end - 1
            } else {
                end
            };
            let ghost line = text@.subrange(i as int, stop as int);
            proof {
                let whole = text@.subrange(i as int, end as int);
                if end < text@.len() {
                    assert(without_return(whole) =~= line);
                } else {
                    assert(whole =~= line);
                }
            }
            let mut blank = true;
            let mut k: usize = i;
            while k < stop
                invariant
                    i <= k <= stop <= text@.len(),
                    line == text@.subrange(i as int, stop as int),
                    blank == (forall|j: int|
                        0 <= j < k - i ==> is_space_char(#[trigger] line[j])),
                decreases stop - k,
            {
                assert(line[k - i] == text@[k as int]);
                if !text[k].is_whitespace() {
                    blank = false;
                }
                k += 1;
            }
            let ghost before = lines@;
            if !blank {
                lines.push(string_of(&text, i, stop));
                assert(texts(lines@) =~= texts(before).push(line));
            }
            let next: usize = if end < text.len() {
                end + 1
            } else {
                end
            };
            assert(texts(lines@) + spoken_lines(text@, next as int) =~= texts(before)
                + spoken_lines(text@, i as int));
            i = next;
        }
        assert(texts(lines@) + spoken_lines(text@, i as int) =~= texts(lines@));
        self.buffer.clear();
        lines
    }
}

/// What is made fit for a line: each character stays, in order, unless it is a control
/// character or the replacement for what cannot be shown; a tab becomes a space. `p` says
/// which characters stay.
pub proof fn lemma_what_stays_in_a_line(text: Seq<char>) -> (p: Seq<int>)
    ensures
        p.len() == collapsed(text).len(),
        forall|a: int|
            0 <= a < p.len() ==> {
                let c = text[#[trigger] p[a]];
                &&& 0 <= p[a] < text.len()
                &&& c == '\t' && collapsed(text)[a] == ' ' || c != '\t' && collapsed(text)[a] == c
                    && !is_control_char(c) && c != '\u{fffd}'
            },
        forall|a: int, b: int| 0 <= a < b < p.len() ==> #[trigger] p[a] < #[trigger] p[b],
        forall|i: int|
            0 <= i < text.len() && (#[trigger] text[i] == '\t' || !is_control_char(text[i])
                && text[i] != '\u{fffd}') ==> p.contains(i),
    decreases text.len(),
{
    if text.len() == 0 {
        Seq::empty()
    } else {
        let shorter = text.drop_last();
        let q = lemma_what_stays_in_a_line(shorter);
        let n = text.len() - 1;
        assert(text[n] == text.last());
        let p = if text.last() == '\t' || is_plain(text.last()) {
            q.push(n)
        } else {
            q
        };
        assert forall|a: int| 0 <= a < p.len() implies ({
            let c = text[#[trigger] p[a]];
            &&& 0 <= p[a] < text.len()
            &&& c == '\t' && collapsed(text)[a] == ' ' || c != '\t' && collapsed(text)[a] == c
                && !is_control_char(c) && c != '\u{fffd}'
        }) by {
            if a < q.len() {
                assert(p[a] == q[a]);
                assert(shorter[q[a]] == text[q[a]]);
                assert(collapsed(text)[a] == collapsed(shorter)[a]);
            }
        }
        assert forall|i: int|
            0 <= i < text.len() && (#[trigger] text[i] == '\t' || !is_control_char(text[i])
                && text[i] != '\u{fffd}') implies p.contains(i) by {
            if i < n {
                assert(shorter[i] == text[i]);
                let a = choose|a: int| 0 <= a < q.len() && q[a] == i;
                assert(p[a] == i);
            } else {
                assert(p[p.len() - 1] == i);
            }
        }
        p
    }
}

/// Text that fits is kept whole; text that does not keeps what it starts with, up to one
/// character less than it may have, and ends in a mark.
pub proof fn lemma_what_a_cut_keeps(text: Seq<char>, cap: nat)
    ensures
        collapsed(text).len() <= cap ==> sanitised(text, cap) == collapsed(text),
        collapsed(text).len() > cap ==> sanitised(text, cap).len() == cap,
        collapsed(text).len() > cap > 0 ==> sanitised(text, cap).drop_last() == collapsed(text).take(
            cap - 1,
        ) && sanitised(text, cap).last() == '\u{2026}',
{
    if collapsed(text).len() > cap && cap > 0 {
        assert(sanitised(text, cap).drop_last() =~= collapsed(text).take(cap - 1));
    }
}

/// A ratio is rounded to a whole number that is nearest to it, and of two that are
/// equally near to the even one.
pub proof fn lemma_rounding(n: nat, d: nat)
    requires
        d > 0,
    ensures
        2 * (rounded_ratio(n, d) * d) <= 2 * n + d,
        2 * n <= 2 * (rounded_ratio(n, d) * d) + d,
        2 * (rounded_ratio(n, d) * d) == 2 * n + d || 2 * n == 2 * (rounded_ratio(n, d) * d) + d
            ==> rounded_ratio(n, d) % 2 == 0,
{
    let q = n / d;
    let r = n % d;
    let up = rounded_ratio(n, d);
    assert(n == q * d + r && r < d) by (nonlinear_arith)
        requires
            q == n / d,
            r == n % d,
            d > 0,
    ;
    assert((q + 1) * d == q * d + d) by (nonlinear_arith);
    if up == q {
    } else {
        assert(up == q + 1);
    }
}

/// The doubles near a whole number are so far apart that the number has 53 digits of base
/// two in that unit, and one apart where it has no more than that.
pub proof fn lemma_doubles_have_53_digits(n: nat)
    ensures
        n < 0x20_0000_0000_0000 ==> double_gap(n) == 1,
        n >= 0x20_0000_0000_0000 ==> double_gap(n) * 0x10_0000_0000_0000 <= n < double_gap(n)
            * 0x20_0000_0000_0000,
        double_gap(n) >= 1,
    decreases n,
{
    if n >= 0x20_0000_0000_0000 {
        lemma_doubles_have_53_digits(n / 2);
        if n / 2 < 0x20_0000_0000_0000 {
            assert(double_gap(n / 2) == 1);
        }
    }
}

/// A byte count is shown in the largest unit there is one of, with the nearest number of
/// tenths, `tenths`; below a kibibyte it is shown as it is.
pub proof fn lemma_byte_counts(bytes: nat, unit: nat, name: Seq<char>) -> (tenths: nat)
    requires
        bytes >= 1024,
        unit == 1024 && bytes < 1024 * 1024 && name == "KiB"@ || unit == 1024 * 1024 && 1024 * 1024
            <= bytes < 1024 * 1024 * 1024 && name == "MiB"@ || unit == 1024 * 1024 * 1024 && 1024
            * 1024 * 1024 <= bytes < 1024 * 1024 * 1024 * 1024 && name == "GiB"@ || unit == 1024
            * 1024 * 1024 * 1024 && 1024 * 1024 * 1024 * 1024 <= bytes && name == "TiB"@,
    ensures
        bytes_text(bytes) == decimal(tenths / 10) + "."@ + decimal(tenths % 10) + name,
        2 * (tenths * unit) <= 20 * nearest_double(bytes) + unit,
        20 * nearest_double(bytes) <= 2 * (tenths * unit) + unit,
        bytes < 0x20_0000_0000_0000 ==> nearest_double(bytes) == bytes,
{
    let size = nearest_double(bytes) * 10;
    lemma_rounding(size, unit);
    lemma_doubles_have_53_digits(bytes);
    if bytes < 0x20_0000_0000_0000 {
        assert(bytes / 1 == bytes && bytes % 1 == 0);
        assert(rounded_ratio(bytes, 1) == bytes);
        assert(rounded_ratio(bytes, double_gap(bytes)) * double_gap(bytes) == bytes * 1);
    }
    rounded_ratio(size, unit)
}

/// Fewer bytes than a kibibyte are shown as they are.
pub proof fn lemma_small_byte_counts(bytes: nat)
    requires
        bytes < 1024,
    ensures
        bytes_text(bytes) == decimal(bytes) + "B"@,
{
}

/// A time below a minute is shown in the nearest tenths of a second; from there on in
/// whole minutes and the seconds left of it, the latter with two digits.
pub proof fn lemma_elapsed(nanos: nat)
    ensures
        nanos < 60_000_000_000 ==> {
            let tenths = rounded_tenths(nanos);
            &&& elapsed_text(nanos) == decimal(tenths / 10) + "."@ + decimal(tenths % 10) + "s"@
            &&& tenths * 100_000_000 <= nanos + 50_000_000
            &&& nanos <= tenths * 100_000_000 + 50_000_000
        },
        nanos >= 60_000_000_000 ==> {
            let (m, s) = (nanos / 60_000_000_000, (nanos / 1_000_000_000) % 60);
            &&& s < 10 ==> elapsed_text(nanos) == decimal(m) + "m0"@ + decimal(s) + "s"@
            &&& s >= 10 ==> elapsed_text(nanos) == decimal(m) + "m"@ + decimal(s) + "s"@
        },
{
    if nanos >= 60_000_000_000 {
        assert((nanos / 1_000_000_000) / 60 == nanos / 60_000_000_000);
        let (m, s) = (nanos / 60_000_000_000, (nanos / 1_000_000_000) % 60);
        reveal_strlit("");
        reveal_strlit("m");
        reveal_strlit("0");
        reveal_strlit("m0");
        if s < 10 {
            assert(elapsed_text(nanos) =~= decimal(m) + "m0"@ + decimal(s) + "s"@);
        } else {
            assert(elapsed_text(nanos) =~= decimal(m) + "m"@ + decimal(s) + "s"@);
        }
    }
}

/// What a poller is told of a line: its number and its parent's, counted from one, with
/// nothing for a parent it does not have; how deep it is; its label; when it was opened;
/// and what it says, which is nothing, a message or a transfer.
pub proof fn lemma_what_a_poller_is_told(n: Node, node: ProgressNode)
    requires
        on_the_wire(n, node),
        n.id < 0xffff_fffe,
        n.parent is Some ==> n.parent->0 < n.id,
    ensures
        node.id == n.id + 1,
        n.parent is None ==> node.parent == 0,
        n.parent matches Some(p) ==> node.parent == p + 1,
        n.depth <= 0xffff_ffff ==> node.depth == n.depth,
        node.label@ == sanitised(n.label@, 512),
        node.started_usec == n.started.wall_usec,
        n.detail is Silent ==> node.kind == 0 && node.text@.len() == 0,
        n.detail matches Detail::Message(m) ==> node.kind == 1 && node.text@ == sanitised(m@, 512),
        n.detail matches Detail::Bytes { done, total } ==> node.kind == 2 && node.text@.len() == 0
            && node.done == done && (total is Some ==> node.total == total->0) && (total is None
            ==> node.total == 0),
        !(n.detail is Bytes) ==> node.done == 0 && node.total == 0,
{
}

/// What is written over and over repeats itself.
pub proof fn lemma_repetition(text: Seq<char>, n: nat)
    ensures
        repeated(text, 0).len() == 0,
        repeated(text, n + 1) == repeated(text, n) + text,
{
}

/// A step is written as the escape sequence that does it: up one row and clear it, once
/// for each row; the two for the cursor; a line with its end.
pub proof fn lemma_escape_sequences(rows: nat, line: Seq<char>)
    ensures
        op_text(OpView::Erase(0)).len() == 0,
        op_text(OpView::Erase(rows + 1)) == op_text(OpView::Erase(rows)) + seq![
            '\x1b',
            '[',
            '1',
            'A',
            '\x1b',
            '[',
            '2',
            'K',
        ],
        op_text(OpView::HideCursor) == seq!['\x1b', '[', '?', '2', '5', 'l'],
        op_text(OpView::ShowCursor) == seq!['\x1b', '[', '?', '2', '5', 'h'],
        op_text(OpView::Line(line)) == line.push('\n'),
{
    reveal_strlit("\x1b[1A\x1b[2K");
    reveal_strlit("\x1b[?25l");
    reveal_strlit("\x1b[?25h");
    reveal_strlit("\n");
    assert("\x1b[1A\x1b[2K"@ =~= seq!['\x1b', '[', '1', 'A', '\x1b', '[', '2', 'K']);
    assert("\x1b[?25l"@ =~= seq!['\x1b', '[', '?', '2', '5', 'l']);
    assert("\x1b[?25h"@ =~= seq!['\x1b', '[', '?', '2', '5', 'h']);
    assert(line + "\n"@ =~= line.push('\n'));
}

/// A line ends in its right part, starts with as much of its left part as leaves room for
/// a space and the right part, and is blank in between.
pub proof fn lemma_both_ends_of_a_line(left: Seq<char>, right: Seq<char>, width: nat)
    ensures
        ({
            let line = fitted(left, right, width);
            let shown = if left.len() + 1 + right.len() <= width {
                left.len() as int
            } else if width > right.len() + 1 {
                width - right.len() - 1
            } else {
                0
            };
            &&& line.len() >= shown + right.len()
            &&& width >= right.len() ==> line.len() == width
            &&& line.take(shown) == left.take(shown)
            &&& line.skip(line.len() - right.len()) == right
            &&& forall|i: int| shown <= i < line.len() - right.len() ==> #[trigger] line[i] == ' '
            &&& shown > 0 ==> line.len() > shown + right.len()
        }),
{
    let line = fitted(left, right, width);
    let room = if width > right.len() + 1 {
        (width - right.len() - 1) as nat
    } else {
        0
    };
    let shown = if left.len() <= room {
        left.len() as int
    } else {
        room as int
    };
    assert(line.take(shown) =~= left.take(shown));
    assert(line.skip(line.len() - right.len()) =~= right);
}

/// What stands on the left of a line: four spaces for each level, the spinner, a space,
/// the label and what the work says; and on the right, in brackets, how long the line has
/// been open.
pub proof fn lemma_what_a_line_says(n: Node, frame: usize, now: Moment)
    requires
        n.started.nanos <= now.nanos,
    ensures
        n.detail is Silent ==> left_text(n, frame) == collapsed(
            Seq::new((4 * n.depth) as nat, |i: int| ' ') + seq![spinner(frame), ' '] + n.label@,
        ),
        n.detail matches Detail::Message(m) ==> left_text(n, frame) == collapsed(
            Seq::new((4 * n.depth) as nat, |i: int| ' ') + seq![spinner(frame), ' '] + n.label@ + seq![
                ' ',
                ' ',
            ] + m@,
        ),
        n.detail matches Detail::Bytes { done, total } ==> left_text(n, frame) == collapsed(
            Seq::new((4 * n.depth) as nat, |i: int| ' ') + seq![spinner(frame), ' '] + n.label@ + seq![
                ' ',
                ' ',
            ] + bytes_text(done as nat) + (match total {
                Some(t) => seq!['/'] + bytes_text(t as nat),
                None => Seq::empty(),
            }),
        ),
        right_text(n, now) == seq!['['] + elapsed_text((now.nanos - n.started.nanos) as nat) + seq![
            ']',
        ],
{
    reveal_strlit(" ");
    reveal_strlit("  ");
    reveal_strlit("/");
    reveal_strlit("[");
    reveal_strlit("]");
    let indent = Seq::new((4 * n.depth) as nat, |i: int| ' ');
    let whole = spaces(n.depth as nat * INDENT as nat).push(spinner(frame)) + " "@ + n.label@
        + detail_text(n.detail);
    assert(spaces(n.depth as nat * INDENT as nat) =~= indent);
    match n.detail {
        Detail::Silent => {
            assert(whole =~= indent + seq![spinner(frame), ' '] + n.label@);
        },
        Detail::Message(m) => {
            assert(whole =~= indent + seq![spinner(frame), ' '] + n.label@ + seq![' ', ' '] + m@);
        },
        Detail::Bytes { done, total } => {
            assert(whole =~= indent + seq![spinner(frame), ' '] + n.label@ + seq![' ', ' ']
                + bytes_text(done as nat) + (match total {
                Some(t) => seq!['/'] + bytes_text(t as nat),
                None => Seq::empty(),
            }));
        },
    }
    assert(right_text(n, now) =~= seq!['['] + elapsed_text(
        (now.nanos - n.started.nanos) as nat,
    ) + seq![']']);
}

/// The region has one line for each node, in order, each as wide as the canvas says: as
/// wide as a terminal that knows its width, as wide as it was asked to be, and 80 columns
/// otherwise.
pub proof fn lemma_one_line_for_each_node(
    nodes: Seq<Node>,
    frame: usize,
    canvas: Canvas,
    now: Moment,
    i: int,
)
    requires
        0 <= i < nodes.len(),
    ensures
        ({
            let width: nat = match canvas {
                Canvas::Terminal { columns } => match columns {
                    Some(n) => n as nat,
                    None => 80,
                },
                Canvas::Writer { width } => width as nat,
                Canvas::Silent => 80,
            };
            let lines = region_lines(nodes, frame, canvas_width(canvas) as nat, now);
            &&& lines.len() == nodes.len()
            &&& lines[i] == fitted(left_text(nodes[i], frame), right_text(nodes[i], now), width)
        }),
{
}

/// A line is where the first node with its number is, and past the end when there is
/// none.
pub proof fn lemma_lines_are_found_by_number(nodes: Seq<Node>, id: u64)
    ensures
        0 <= position(nodes, id) <= nodes.len(),
        position(nodes, id) < nodes.len() ==> nodes[position(nodes, id)].id == id,
        forall|j: int| 0 <= j < position(nodes, id) ==> (#[trigger] nodes[j]).id != id,
    decreases nodes.len(),
{
    if nodes.len() > 0 && nodes[0].id != id {
        let rest = nodes.skip(1);
        lemma_lines_are_found_by_number(rest, id);
        assert forall|j: int| 0 <= j < position(nodes, id) implies (#[trigger] nodes[j]).id
            != id by {
            if j > 0 {
                assert(rest[j - 1] == nodes[j]);
            }
        }
    }
}

proof fn lemma_first_shallow_is_first(nodes: Seq<Node>, from: int, depth: usize)
    requires
        0 <= from <= nodes.len(),
    ensures
        from <= first_shallow(nodes, from, depth) <= nodes.len(),
        forall|j: int|
            from <= j < first_shallow(nodes, from, depth) ==> (#[trigger] nodes[j]).depth > depth,
        first_shallow(nodes, from, depth) < nodes.len() ==> nodes[first_shallow(
            nodes,
            from,
            depth,
        )].depth <= depth,
    decreases nodes.len() - from,
{
    if from < nodes.len() && nodes[from].depth > depth {
        lemma_first_shallow_is_first(nodes, from + 1, depth);
    }
}

/// A new line goes behind its parent and behind everything nested under the parent, and
/// in front of whatever is not; one without a parent goes to the end.
pub proof fn lemma_new_lines_go_behind_their_siblings(nodes: Seq<Node>, parent: u64, at: int)
    requires
        0 <= at < nodes.len(),
        nodes[at].id == parent,
        forall|j: int| 0 <= j < at ==> (#[trigger] nodes[j]).id != parent,
    ensures
        at < place_for(nodes, Some(parent)) <= nodes.len(),
        forall|j: int|
            at < j < place_for(nodes, Some(parent)) ==> (#[trigger] nodes[j]).depth
                > nodes[at].depth,
        place_for(nodes, Some(parent)) < nodes.len() ==> nodes[place_for(
            nodes,
            Some(parent),
        )].depth <= nodes[at].depth,
        place_for(nodes, None) == nodes.len(),
{
    lemma_position(nodes, parent, at);
    lemma_first_shallow_is_first(nodes, at + 1, nodes[at].depth);
}

/// A line is under another when it is that line, or when its parent is under it.
pub proof fn lemma_under_goes_by_parents(nodes: Seq<Node>, next_id: u64, i: int, id: u64)
    requires
        numbered(nodes, next_id),
        0 <= i < nodes.len(),
    ensures
        nodes[i].parent is None ==> (under(nodes, nodes[i].id, id) <==> nodes[i].id == id),
        nodes[i].parent matches Some(p) ==> (under(nodes, nodes[i].id, id) <==> nodes[i].id == id
            || under(nodes, p, id)),
{
    let x = nodes[i].id;
    if under(nodes, x, id) && x != id {
        let j = choose|j: int|
            0 <= j < nodes.len() && (#[trigger] nodes[j]).id == x && nodes[j].parent is Some
                && nodes[j].parent->0 < x && under(nodes, nodes[j].parent->0, id);
        assert(j == i) by {
            if j < i {
                assert(nodes[j].id != nodes[i].id);
            }
            if i < j {
                assert(nodes[i].id != nodes[j].id);
            }
        }
    }
    if nodes[i].parent is Some && under(nodes, nodes[i].parent->0, id) {
        assert(nodes[i].id == x && nodes[i].parent->0 < x);
    }
}

proof fn lemma_survivors(nodes: Seq<Node>, id: u64, n: int)
    requires
        0 <= n <= nodes.len(),
    ensures
        forall|a: int|
            0 <= a < surviving(nodes, id, n).len() ==> 0 <= #[trigger] surviving(nodes, id, n)[a]
                < n && !under(nodes, nodes[surviving(nodes, id, n)[a]].id, id),
        forall|a: int, b: int|
            0 <= a < b < surviving(nodes, id, n).len() ==> #[trigger] surviving(nodes, id, n)[a]
                < #[trigger] surviving(nodes, id, n)[b],
        forall|i: int|
            0 <= i < n && !under(nodes, (#[trigger] nodes[i]).id, id) ==> surviving(
                nodes,
                id,
                n,
            ).contains(i),
    decreases n,
{
    if n > 0 {
        lemma_survivors(nodes, id, n - 1);
        let rest = surviving(nodes, id, n - 1);
        let all = surviving(nodes, id, n);
        assert forall|i: int| 0 <= i < n && !under(nodes, (#[trigger] nodes[i]).id, id) implies
            all.contains(i) by {
            if i < n - 1 {
                let a = choose|a: int| 0 <= a < rest.len() && rest[a] == i;
                assert(all[a] == i);
            } else {
                assert(all[all.len() - 1] == i);
            }
        }
    }
}

/// Closing a line takes it and everything under it away, leaves every other line, and
/// leaves them in order; `p` says which lines are left.
pub proof fn lemma_closing_takes_what_is_under(nodes: Seq<Node>, id: u64) -> (p: Seq<int>)
    ensures
        p.len() == without(nodes, id).len(),
        forall|a: int|
            0 <= a < p.len() ==> 0 <= #[trigger] p[a] < nodes.len() && without(nodes, id)[a]
                == nodes[p[a]] && !under(nodes, nodes[p[a]].id, id),
        forall|a: int, b: int| 0 <= a < b < p.len() ==> #[trigger] p[a] < #[trigger] p[b],
        forall|i: int|
            0 <= i < nodes.len() && !under(nodes, (#[trigger] nodes[i]).id, id) ==> p.contains(i),
{
    lemma_survivors(nodes, id, nodes.len() as int);
    surviving(nodes, id, nodes.len() as int)
}

/// What is on a terminal, and whether its cursor is hidden, once these steps have been
/// done: rows are taken off its bottom and lines put there.
pub open spec fn on_terminal(rows: Seq<Seq<char>>, hidden: bool, ops: Seq<OpView>) -> (
    Seq<Seq<char>>,
    bool,
)
    decreases ops.len(),
{
    if ops.len() == 0 {
        (rows, hidden)
    } else {
        let (before, was) = on_terminal(rows, hidden, ops.drop_last());
        match ops.last() {
            OpView::Erase(n) => (before.take(before.len() - n), was),
            OpView::HideCursor => (before, true),
            OpView::ShowCursor => (before, false),
            OpView::Line(line) => (before.push(line), was),
        }
    }
}

proof fn lemma_one_step_more(rows: Seq<Seq<char>>, hidden: bool, ops: Seq<OpView>, op: OpView)
    ensures
        ({
            let (before, was) = on_terminal(rows, hidden, ops);
            on_terminal(rows, hidden, ops.push(op)) == (match op {
                OpView::Erase(n) => (before.take(before.len() - n), was),
                OpView::HideCursor => (before, true),
                OpView::ShowCursor => (before, false),
                OpView::Line(line) => (before.push(line), was),
            })
        }),
{
    assert(ops.push(op).drop_last() =~= ops);
}

proof fn lemma_lines_on_terminal(
    rows: Seq<Seq<char>>,
    hidden: bool,
    ops: Seq<OpView>,
    lines: Seq<Seq<char>>,
)
    ensures
        ({
            let (before, was) = on_terminal(rows, hidden, ops);
            on_terminal(rows, hidden, ops + line_ops(lines)) == (before + lines, was)
        }),
    decreases lines.len(),
{
    let (before, was) = on_terminal(rows, hidden, ops);
    if lines.len() == 0 {
        assert(ops + line_ops(lines) =~= ops);
        assert(before + lines =~= before);
    } else {
        let shorter = lines.drop_last();
        lemma_lines_on_terminal(rows, hidden, ops, shorter);
        assert(ops + line_ops(lines) =~= (ops + line_ops(shorter)).push(
            OpView::Line(lines.last()),
        ));
        lemma_one_step_more(
            rows,
            hidden,
            ops + line_ops(shorter),
            OpView::Line(lines.last()),
        );
        assert((before + shorter).push(lines.last()) =~= before + lines);
    }
}

/// A redraw replaces exactly the lines that the last one left. Whatever else was written
/// to a terminal stays above them, what is said now is added to that, and the lines of
/// the region follow. The cursor is hidden while there are any.
pub proof fn lemma_redraw_replaces_the_region(
    above: Seq<Seq<char>>,
    old_lines: Seq<Seq<char>>,
    said: Option<String>,
    lines: Seq<Seq<char>>,
    drawn: usize,
    hidden: bool,
)
    requires
        drawn == old_lines.len(),
    ensures
        on_terminal(
            above + old_lines,
            hidden,
            erase_ops(drawn) + said_ops(said) + cursor_ops(hidden, lines.len() > 0) + line_ops(
                lines,
            ),
        ) == (
            (match said {
                Some(line) => above.push(line@),
                None => above,
            }) + lines,
            lines.len() > 0,
        ),
{
    let rows = above + old_lines;
    let none = Seq::<OpView>::empty();
    let a = erase_ops(drawn);
    assert(on_terminal(rows, hidden, a) == (above, hidden)) by {
        if drawn == 0 {
            assert(a =~= none);
            assert(rows =~= above);
        } else {
            lemma_one_step_more(rows, hidden, none, OpView::Erase(drawn as nat));
            assert(none.push(OpView::Erase(drawn as nat)) =~= a);
            assert(rows.take(rows.len() - drawn) =~= above);
        }
    }
    let b = a + said_ops(said);
    let spoken = match said {
        Some(line) => above.push(line@),
        None => above,
    };
    assert(on_terminal(rows, hidden, b) == (spoken, hidden)) by {
        match said {
            Some(line) => {
                lemma_one_step_more(rows, hidden, a, OpView::Line(line@));
                assert(b =~= a.push(OpView::Line(line@)));
            },
            None => {
                assert(b =~= a);
            },
        }
    }
    let c = b + cursor_ops(hidden, lines.len() > 0);
    assert(on_terminal(rows, hidden, c) == (spoken, lines.len() > 0)) by {
        if hidden == (lines.len() > 0) {
            assert(c =~= b);
        } else if lines.len() > 0 {
            lemma_one_step_more(rows, hidden, b, OpView::HideCursor);
            assert(c =~= b.push(OpView::HideCursor));
        } else {
            lemma_one_step_more(rows, hidden, b, OpView::ShowCursor);
            assert(c =~= b.push(OpView::ShowCursor));
        }
    }
    lemma_lines_on_terminal(rows, hidden, c, lines);
}

/// Nothing is ever drawn on a silent canvas, and everything on any other.
pub proof fn lemma_silence(canvas: Canvas, ops: Seq<OpView>)
    ensures
        canvas is Silent ==> reaching(canvas, ops).len() == 0,
        !(canvas is Silent) ==> reaching(canvas, ops) == ops,
{
}

proof fn lemma_line_end_is_first(text: Seq<char>, i: int)
    requires
        0 <= i <= text.len(),
    ensures
        i <= line_end(text, i) <= text.len(),
        forall|j: int| i <= j < line_end(text, i) ==> #[trigger] text[j] != '\n',
        line_end(text, i) < text.len() ==> text[line_end(text, i)] == '\n',
    decreases text.len() - i,
{
    if i < text.len() && text[i] != '\n' {
        lemma_line_end_is_first(text, i + 1);
    }
}

/// What is said of a text, line by line: what stands between line feeds, without a
/// carriage return in front of one, unless it is blank. `r` says where each line stands:
/// they are in order, and everything that is not white space is in one.
pub proof fn lemma_lines_between_line_feeds(text: Seq<char>, i: int) -> (r: Seq<(int, int)>)
    requires
        0 <= i <= text.len(),
        i == 0 || text[i - 1] == '\n' || i == text.len(),
    ensures
        r.len() == spoken_lines(text, i).len(),
        forall|k: int|
            0 <= k < r.len() ==> {
                let (from, to) = #[trigger] r[k];
                &&& i <= from < to <= text.len()
                &&& spoken_lines(text, i)[k] == text.subrange(from, to)
                &&& from == 0 || text[from - 1] == '\n'
                &&& to == text.len() || text[to] == '\n' && text[to - 1] != '\r' || to + 1
                    < text.len() && text[to] == '\r' && text[to + 1] == '\n'
            },
        forall|k: int, j: int|
            0 <= k < r.len() && (#[trigger] r[k]).0 <= j < r[k].1 ==> #[trigger] text[j] != '\n',
        forall|k: int, l: int| 0 <= k < l < r.len() ==> (#[trigger] r[k]).1 < (#[trigger] r[l]).0,
        forall|j: int|
            i <= j < text.len() && !is_space_char(#[trigger] text[j]) ==> exists|k: int|
                0 <= k < r.len() && (#[trigger] r[k]).0 <= j < r[k].1,
    decreases text.len() - i,
{
    if i >= text.len() {
        Seq::empty()
    } else {
        lemma_line_end_is_first(text, i);
        let end = line_end(text, i);
        let whole = text.subrange(i, end);
        let line = if end < text.len() {
            without_return(whole)
        } else {
            whole
        };
        let stop = i + line.len();
        assert(line =~= text.subrange(i, stop));
        assert(is_space_char('\n'));
        assert(is_space_char('\r'));
        if stop < end {
            assert(whole.last() == text[end - 1]);
            assert(text[stop] == '\r');
        } else if end < text.len() && end > i {
            assert(whole.last() == text[end - 1]);
        }
        let rest = if end < text.len() {
            lemma_lines_between_line_feeds(text, end + 1)
        } else {
            Seq::empty()
        };
        assert(forall|j: int| i <= j < stop ==> line[j - i] == #[trigger] text[j]);
        if is_blank(line) {
            assert forall|j: int|
                i <= j < text.len() && !is_space_char(#[trigger] text[j]) implies exists|k: int|
                0 <= k < rest.len() && (#[trigger] rest[k]).0 <= j < rest[k].1 by {
                if j < stop {
                    assert(is_space_char(line[j - i]));
                }
            }
            rest
        } else {
            let r = seq![(i, stop)] + rest;
            let j0 = choose|j: int| 0 <= j < line.len() && !is_space_char(#[trigger] line[j]);
            assert(text[i + j0] == line[j0]);
            assert forall|k: int| 0 <= k < r.len() implies ({
                let (from, to) = #[trigger] r[k];
                &&& i <= from < to <= text.len()
                &&& spoken_lines(text, i)[k] == text.subrange(from, to)
                &&& from == 0 || text[from - 1] == '\n'
                &&& to == text.len() || text[to] == '\n' && text[to - 1] != '\r' || to + 1
                    < text.len() && text[to] == '\r' && text[to + 1] == '\n'
            }) by {
                if k > 0 {
                    assert(r[k] == rest[k - 1]);
                }
            }
            assert forall|k: int, j: int|
                0 <= k < r.len() && (#[trigger] r[k]).0 <= j < r[k].1 implies #[trigger] text[j]
                != '\n' by {
                if k > 0 {
                    assert(r[k] == rest[k - 1]);
                }
            }
            assert forall|k: int, l: int| 0 <= k < l < r.len() implies (#[trigger] r[k]).1 < (
            #[trigger] r[l]).0 by {
                assert(r[l] == rest[l - 1]);
                if k > 0 {
                    assert(r[k] == rest[k - 1]);
                }
            }
            assert forall|j: int|
                i <= j < text.len() && !is_space_char(#[trigger] text[j]) implies exists|k: int|
                0 <= k < r.len() && (#[trigger] r[k]).0 <= j < r[k].1 by {
                if j < stop {
                    assert(r[0].0 <= j < r[0].1);
                } else {
                    let k = choose|k: int|
                        0 <= k < rest.len() && (#[trigger] rest[k]).0 <= j < rest[k].1;
                    assert(r[k + 1] == rest[k]);
                }
            }
            r
        }
    }
}

/// Whatever line is said has something in it that is not white space, at `j`.
pub proof fn lemma_no_blank_line_is_said(text: Seq<char>, i: int, k: int) -> (j: int)
    requires
        0 <= i <= text.len(),
        0 <= k < spoken_lines(text, i).len(),
    ensures
        0 <= j < spoken_lines(text, i)[k].len(),
        !is_space_char(spoken_lines(text, i)[k][j]),
    decreases text.len() - i,
{
    lemma_line_end_is_first(text, i);
    let end = line_end(text, i);
    let whole = text.subrange(i, end);
    let line = if end < text.len() {
        without_return(whole)
    } else {
        whole
    };
    if !is_blank(line) && k == 0 {
        choose|j: int| 0 <= j < line.len() && !is_space_char(#[trigger] line[j])
    } else if is_blank(line) {
        lemma_no_blank_line_is_said(text, end + 1, k)
    } else {
        lemma_no_blank_line_is_said(text, end + 1, k - 1)
    }
}

/// The spinner goes through ten positions and starts over.
pub proof fn lemma_spinner_turns(frame: usize)
    ensures
        spinner(frame) == seq![
            '\u{280b}',
            '\u{2819}',
            '\u{2839}',
            '\u{2838}',
            '\u{283c}',
            '\u{2834}',
            '\u{2826}',
            '\u{2827}',
            '\u{2807}',
            '\u{280f}',
        ][frame as int % 10],
{
}

proof fn lemma_steps_one_after_another(
    rows: Seq<Seq<char>>,
    hidden: bool,
    a: Seq<OpView>,
    b: Seq<OpView>,
)
    ensures
        ({
            let (between, was) = on_terminal(rows, hidden, a);
            on_terminal(rows, hidden, a + b) == on_terminal(between, was, b)
        }),
    decreases b.len(),
{
    if b.len() == 0 {
        assert(a + b =~= a);
    } else {
        lemma_steps_one_after_another(rows, hidden, a, b.drop_last());
        assert((a + b).drop_last() =~= a + b.drop_last());
        assert((a + b).last() == b.last());
    }
}

/// A terminal on which everything queued so far has been done shows what was written
/// above the region, and then the region. After a redraw it shows the same above, with
/// what was said added to it, and then the region as it is now: one line for each of its
/// nodes. That is what the screen remembers having drawn, and its cursor is hidden
/// exactly while there are such lines.
pub proof fn lemma_terminal_shows_the_region(
    before: Screen,
    after: Screen,
    said: Option<String>,
    now: Moment,
    rows: Seq<Seq<char>>,
    hidden: bool,
    above: Seq<Seq<char>>,
    old_lines: Seq<Seq<char>>,
)
    requires
        redrawn(before, after, said_ops(said), now),
        !(before.canvas is Silent),
        on_terminal(rows, hidden, op_views(before.queue@)) == (
            above + old_lines,
            before.cursor_hidden,
        ),
        old_lines.len() == before.drawn,
    ensures
        ({
            let lines = region_lines(
                after.nodes@,
                after.frame,
                canvas_width(after.canvas) as nat,
                now,
            );
            &&& on_terminal(rows, hidden, op_views(after.queue@)) == (
                (match said {
                    Some(line) => above.push(line@),
                    None => above,
                }) + lines,
                after.cursor_hidden,
            )
            &&& lines.len() == after.drawn
            &&& after.drawn == after.nodes@.len()
            &&& after.cursor_hidden <==> after.nodes@.len() > 0
        }),
{
    let lines = region_lines(after.nodes@, after.frame, canvas_width(after.canvas) as nat, now);
    let ops = erase_ops(before.drawn) + said_ops(said) + cursor_ops(
        before.cursor_hidden,
        lines.len() > 0,
    ) + line_ops(lines);
    lemma_redraw_replaces_the_region(
        above,
        old_lines,
        said,
        lines,
        before.drawn,
        before.cursor_hidden,
    );
    lemma_steps_one_after_another(rows, hidden, op_views(before.queue@), ops);
}

/// Opening a line puts it among the others, in one place, and leaves them as they are and
/// in their order. A line without a parent goes to the end.
pub proof fn lemma_opening_adds_one_line(before: Progress, after: Progress, node: Node, now: Moment) -> (at:
    int)
    requires
        opened(before, after, node, now),
        before.screen.wf(),
        node.parent matches Some(p) ==> exists|i: int|
            0 <= i < before.screen.nodes@.len() && (#[trigger] before.screen.nodes@[i]).id == p,
    ensures
        0 <= at <= before.screen.nodes@.len(),
        after.screen.nodes@.len() == before.screen.nodes@.len() + 1,
        after.screen.nodes@[at] == node,
        after.screen.nodes@.take(at) == before.screen.nodes@.take(at),
        after.screen.nodes@.skip(at + 1) == before.screen.nodes@.skip(at),
        node.parent is None ==> at == before.screen.nodes@.len(),
        after.screen.next_id == before.screen.next_id + 1,
        after.screen.frame == before.screen.frame,
        after.live == before.live,
{
    let nodes = before.screen.nodes@;
    let at = place_for(nodes, node.parent);
    match node.parent {
        Some(p) => {
            lemma_lines_are_found_by_number(nodes, p);
            let i = choose|i: int| 0 <= i < nodes.len() && (#[trigger] nodes[i]).id == p;
            assert(position(nodes, p) <= i);
            lemma_new_lines_go_behind_their_siblings(nodes, p, position(nodes, p));
        },
        None => {},
    }
    assert(nodes.insert(at, node).take(at) =~= nodes.take(at));
    assert(nodes.insert(at, node).skip(at + 1) =~= nodes.skip(at));
    at
}

/// What a line says can be replaced: that is what it says from then on, and nothing else
/// of it changes, nor any other line.
pub proof fn lemma_only_what_a_line_says_changes(
    nodes: Seq<Node>,
    next_id: u64,
    id: u64,
    detail: Detail,
    i: int,
)
    requires
        numbered(nodes, next_id),
        0 <= i < nodes.len(),
    ensures
        described(nodes, id, detail).len() == nodes.len(),
        nodes[i].id != id ==> described(nodes, id, detail)[i] == nodes[i],
        nodes[i].id == id ==> {
            let n = described(nodes, id, detail)[i];
            &&& n.detail == detail
            &&& n.id == nodes[i].id
            &&& n.parent == nodes[i].parent
            &&& n.depth == nodes[i].depth
            &&& n.label == nodes[i].label
            &&& n.started == nodes[i].started
        },
{
    lemma_lines_are_found_by_number(nodes, id);
    let at = position(nodes, id);
    if nodes[i].id == id {
        assert(at <= i);
        if at < i {
            assert(nodes[at].id != nodes[i].id);
        }
    }
}

/// When lines change, they are drawn as they are now; nothing else of a region changes.
pub proof fn lemma_only_the_lines_change(
    before: Progress,
    after: Progress,
    nodes: Seq<Node>,
    now: Moment,
)
    requires
        changed(before, after, nodes, now),
    ensures
        after.screen.nodes@ == nodes,
        after.screen.drawn == nodes.len(),
        after.screen.next_id == before.screen.next_id,
        after.screen.frame == before.screen.frame,
        after.screen.canvas == before.screen.canvas,
        after.live == before.live,
{
}

/// A time that is half way between two tenths of a second goes by the double nearest to
/// it, as the number of seconds: down where that is smaller, up where it is larger, and to
/// an even number of tenths where it is the time itself. There `q` tenths have passed and
/// half of another, doubles are a `unit`th apart, and the nearest is `m` of them.
pub proof fn lemma_half_way_goes_by_the_double(q: nat, unit: nat, m: nat)
    requires
        q < 600,
        unit == 0x8000_0000_0000 || unit == 0x1_0000_0000_0000 || unit == 0x2_0000_0000_0000
            || unit == 0x4_0000_0000_0000 || unit == 0x8_0000_0000_0000 || unit
            == 0x10_0000_0000_0000 || unit == 0x20_0000_0000_0000 || unit == 0x40_0000_0000_0000
            || unit == 0x80_0000_0000_0000 || unit == 0x100_0000_0000_0000 || unit
            == 0x200_0000_0000_0000,
        20 * 0x10_0000_0000_0000 <= (2 * q + 1) * unit < 20 * 0x20_0000_0000_0000,
        20 * m <= (2 * q + 1) * unit + 10,
        (2 * q + 1) * unit <= 20 * m + 10,
    ensures
        20 * m < (2 * q + 1) * unit ==> rounded_tenths(q * 100_000_000 + 50_000_000) == q,
        20 * m > (2 * q + 1) * unit ==> rounded_tenths(q * 100_000_000 + 50_000_000) == q + 1,
        20 * m == (2 * q + 1) * unit ==> {
            let tenths = rounded_tenths(q * 100_000_000 + 50_000_000);
            &&& tenths % 2 == 0
            &&& tenths == q || tenths == q + 1
        },
{
    let nanos: nat = q * 100_000_000 + 50_000_000;
    assert(nanos / 100_000_000 == q && nanos % 100_000_000 == 50_000_000);
    let s: nat = q / 10;
    let t: nat = 2 * (q % 10) + 1;
    let n: nat = 2 * q + 1;
    assert(n == 20 * s + t);
    if unit == 0x8000_0000_0000 {
        lemma_side_of_a_double(s, t, 0x2000_0000_0000, 2, m);
    } else if unit == 0x1_0000_0000_0000 {
        lemma_side_of_a_double(s, t, 0x4000_0000_0000, 4, m);
    } else if unit == 0x2_0000_0000_0000 {
        lemma_side_of_a_double(s, t, 0x8000_0000_0000, 3, m);
    } else if unit == 0x4_0000_0000_0000 {
        lemma_side_of_a_double(s, t, 0x1_0000_0000_0000, 1, m);
    } else if unit == 0x8_0000_0000_0000 {
        lemma_side_of_a_double(s, t, 0x2_0000_0000_0000, 2, m);
    } else if unit == 0x10_0000_0000_0000 {
        lemma_side_of_a_double(s, t, 0x4_0000_0000_0000, 4, m);
    } else if unit == 0x20_0000_0000_0000 {
        lemma_side_of_a_double(s, t, 0x8_0000_0000_0000, 3, m);
    } else if unit == 0x40_0000_0000_0000 {
        lemma_side_of_a_double(s, t, 0x10_0000_0000_0000, 1, m);
    } else if unit == 0x80_0000_0000_0000 {
        lemma_side_of_a_double(s, t, 0x20_0000_0000_0000, 2, m);
    } else if unit == 0x100_0000_0000_0000 {
        lemma_side_of_a_double(s, t, 0x40_0000_0000_0000, 4, m);
    } else {
        lemma_side_of_a_double(s, t, 0x80_0000_0000_0000, 3, m);
    }
}

proof fn lemma_side_of_a_double(s: nat, t: nat, u: nat, scale: nat, m: nat)
    requires
        u % 5 == scale,
        20 * m <= (20 * s + t) * (4 * u) + 10,
        (20 * s + t) * (4 * u) <= 20 * m + 10,
    ensures
        20 * m < (20 * s + t) * (4 * u) <==> (t * scale) % 5 == 1 || (t * scale) % 5 == 2,
        20 * m == (20 * s + t) * (4 * u) <==> (t * scale) % 5 == 0,
{
    let x = (20 * s + t) * u;
    let side = (t * scale) % 5;
    assert((20 * s + t) * (4 * u) == 4 * x) by (nonlinear_arith)
        requires
            x == (20 * s + t) * u,
    ;
    let v = u / 5;
    assert(u == 5 * v + scale);
    assert(x == 5 * (4 * s * u + t * v) + t * scale) by (nonlinear_arith)
        requires
            x == (20 * s + t) * u,
            u == 5 * v + scale,
    ;
    let w = 4 * s * u + t * v + (t * scale) / 5;
    assert(x == 5 * w + side);
    assert(0 <= side < 5);
}

} // verus!

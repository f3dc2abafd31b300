//! Failures on the wire: the `org.pm1.Error.*` names, and the conversion that
//! turns a [`Report`] into a [`Diagnostic`] a client without shared memory can
//! read.

use vstd::prelude::*;

use crate::progress::{
    is_plain, lemma_decimal_is_plain, lemma_sanitised_is_safe, sanitise, sanitised,
};
use crate::report::{Report, ReportView};
use crate::text::{
    byte_len, decimal, lemma_byte_len_bound, lemma_decimal_bytes, lemma_decimal_len_bound,
    lemma_decimal_len_monotone, lemma_encode_concat, push_decimal, texts, total_bytes,
};
use crate::wire::types::Diagnostic;

verus! {

/// Something failed for a reason the returned [`Diagnostic`] describes.
pub const FAILED: &'static str = "org.pm1.Error.Failed";

/// The job, package or path named in the call does not exist.
pub const NOT_FOUND: &'static str = "org.pm1.Error.NotFound";

/// A caller-supplied argument failed validation before any work started.
pub const INVALID_ARGUMENT: &'static str = "org.pm1.Error.InvalidArgument";

/// The call was cancelled by its own caller, not defeated by a failure.
pub const CANCELLED: &'static str = "org.pm1.Error.Cancelled";

/// Cap on [`Diagnostic::name`], in characters.
pub const NAME_CAP: usize = 128;

/// Cap on [`Diagnostic::message`], in characters.
pub const MESSAGE_CAP: usize = 8192;

/// Cap on [`Diagnostic::help`], in characters.
pub const HELP_CAP: usize = 2048;

/// Cap on each entry of [`Diagnostic::causes`], in characters.
pub const CAUSE_CAP: usize = 4096;

/// The combined byte budget for `message`, `help` and every `causes` entry
/// together.
pub const TOTAL_BUDGET: usize = 65536;

/// How many [`Diagnostic::causes`] entries survive before the rest are dropped,
/// budget or not.
pub const MAX_CAUSES: usize = 16;

/// What says that `dropped` causes are missing.
pub open spec fn marker_text(dropped: nat) -> Seq<char> {
    "\u{2026}"@ + (decimal(dropped)
        + " more cause(s) dropped to stay within the 65536-byte Diagnostic budget"@)
}

/// How many bytes the marker for `dropped` causes takes: none where nothing was
/// dropped.
pub open spec fn marker_bytes(dropped: nat) -> nat {
    if dropped == 0 {
        0
    } else {
        byte_len(marker_text(dropped))
    }
}

/// The name of a report's kind.
pub open spec fn name_of(report: ReportView) -> Seq<char> {
    match report.code {
        Some(code) => sanitised(code, NAME_CAP as nat),
        None => FAILED@,
    }
}

/// What a report says, safe to send.
pub open spec fn message_of(report: ReportView) -> Seq<char> {
    sanitised(report.message, MESSAGE_CAP as nat)
}

/// What a report advises, safe to send; nothing where it gives no advice.
pub open spec fn help_of(report: ReportView) -> Seq<char> {
    match report.help {
        Some(help) => sanitised(help, HELP_CAP as nat),
        None => Seq::empty(),
    }
}

/// The causes that are considered at all, safe to send.
pub open spec fn candidates(causes: Seq<Seq<char>>) -> Seq<Seq<char>> {
    let count = if causes.len() < MAX_CAUSES {
        causes.len() as int
    } else {
        MAX_CAUSES as int
    };
    causes.take(count).map_values(|c: Seq<char>| sanitised(c, CAUSE_CAP as nat))
}

/// How many bytes the causes may take, once the message, the help and the longest
/// marker there could be have been paid for.
pub open spec fn room_for_causes(report: ReportView) -> nat {
    let paid = byte_len(message_of(report)) + byte_len(help_of(report)) + marker_bytes(
        report.causes.len(),
    );
    if paid < TOTAL_BUDGET {
        (TOTAL_BUDGET - paid) as nat
    } else {
        0
    }
}

/// The members of `list` that are kept when each is taken, first to last, where it
/// still fits into `room` bytes.
pub open spec fn kept_within(list: Seq<Seq<char>>, room: nat) -> Seq<Seq<char>>
    decreases list.len(),
{
    if list.len() == 0 {
        Seq::empty()
    } else {
        let rest = kept_within(list.drop_last(), room);
        if total_bytes(rest) + byte_len(list.last()) <= room {
            rest.push(list.last())
        } else {
            rest
        }
    }
}

/// The causes that are sent.
pub open spec fn kept_causes(report: ReportView) -> Seq<Seq<char>> {
    kept_within(candidates(report.causes), room_for_causes(report))
}

/// How many causes are not sent.
pub open spec fn dropped_causes(report: ReportView) -> nat {
    (report.causes.len() - kept_causes(report).len()) as nat
}

/// The causes on the wire: those that are kept, and a marker where some are not.
pub open spec fn causes_of(report: ReportView) -> Seq<Seq<char>> {
    if dropped_causes(report) == 0 {
        kept_causes(report)
    } else {
        kept_causes(report).push(marker_text(dropped_causes(report)))
    }
}

proof fn lemma_kept_within(list: Seq<Seq<char>>, room: nat)
    ensures
        total_bytes(kept_within(list, room)) <= room,
        kept_within(list, room).len() <= list.len(),
    decreases list.len(),
{
    if list.len() > 0 {
        lemma_kept_within(list.drop_last(), room);
        let rest = kept_within(list.drop_last(), room);
        assert(rest.push(list.last()).drop_last() =~= rest);
    }
}

proof fn lemma_marker_bytes(dropped: nat)
    ensures
        byte_len(marker_text(dropped)) == byte_len("\u{2026}"@) + decimal(dropped).len() + byte_len(
            " more cause(s) dropped to stay within the 65536-byte Diagnostic budget"@,
        ),
        dropped <= u64::MAX ==> byte_len(marker_text(dropped)) <= 400,
{
    let head = "\u{2026}"@;
    let tail = " more cause(s) dropped to stay within the 65536-byte Diagnostic budget"@;
    lemma_encode_concat(head, decimal(dropped) + tail);
    lemma_encode_concat(decimal(dropped), tail);
    lemma_decimal_bytes(dropped);
    lemma_byte_len_bound(head);
    lemma_byte_len_bound(tail);
    reveal_strlit("\u{2026}");
    reveal_strlit(" more cause(s) dropped to stay within the 65536-byte Diagnostic budget");
    if dropped <= u64::MAX {
        lemma_decimal_len_bound(dropped);
    }
}

/// The marker never shrinks as the count grows: room kept for the marker of `most`
/// dropped causes holds the marker of any number up to that.
pub proof fn lemma_marker_never_shrinks(dropped: nat, most: nat)
    requires
        dropped <= most,
    ensures
        marker_bytes(dropped) <= marker_bytes(most),
        dropped > 0 ==> byte_len(marker_text(dropped)) <= byte_len(marker_text(most)),
        dropped > 0 ==> marker_text(dropped).len() <= marker_text(most).len(),
{
    lemma_marker_bytes(dropped);
    lemma_marker_bytes(most);
    lemma_decimal_len_monotone(dropped, most);
}

proof fn lemma_spent(report: ReportView)
    ensures
        byte_len(message_of(report)) <= 4 * MESSAGE_CAP,
        byte_len(help_of(report)) <= 4 * HELP_CAP,
        report.causes.len() <= u64::MAX ==> room_for_causes(report) + byte_len(message_of(report))
            + byte_len(help_of(report)) + marker_bytes(report.causes.len()) == TOTAL_BUDGET,
{
    lemma_sanitised_is_safe(report.message, MESSAGE_CAP as nat);
    lemma_byte_len_bound(message_of(report));
    if report.help is Some {
        lemma_sanitised_is_safe(report.help->0, HELP_CAP as nat);
    }
    lemma_byte_len_bound(help_of(report));
    lemma_marker_bytes(report.causes.len());
}

/// A diagnostic never exceeds its budget, and never carries more than the causes
/// it may carry and one marker. The marker is there exactly when something is
/// missing.
pub proof fn lemma_diagnostic_stays_within_budget(report: ReportView)
    requires
        report.causes.len() <= u64::MAX,
    ensures
        byte_len(message_of(report)) + byte_len(help_of(report)) + total_bytes(causes_of(report))
            <= TOTAL_BUDGET,
        causes_of(report).len() <= MAX_CAUSES + 1,
        causes_of(report) == report.causes.map_values(
            |c: Seq<char>| sanitised(c, CAUSE_CAP as nat),
        ) || causes_of(report).last() == marker_text(dropped_causes(report)) && dropped_causes(
            report,
        ) > 0,
{
    let all = candidates(report.causes);
    let room = room_for_causes(report);
    let kept = kept_causes(report);
    let dropped = dropped_causes(report);
    lemma_spent(report);
    lemma_kept_within(all, room);
    if dropped > 0 {
        assert(kept.push(marker_text(dropped)).drop_last() =~= kept);
        lemma_marker_never_shrinks(dropped, report.causes.len());
    } else {
        lemma_kept_all(all, room);
        assert(report.causes.take(report.causes.len() as int) =~= report.causes);
    }
}

/// Every character of `text` may stand in a line.
pub open spec fn all_plain(text: Seq<char>) -> bool {
    forall|i: int| 0 <= i < text.len() ==> is_plain(#[trigger] text[i])
}

proof fn lemma_kept_are_candidates(list: Seq<Seq<char>>, room: nat, i: int)
    requires
        0 <= i < kept_within(list, room).len(),
    ensures
        list.contains(kept_within(list, room)[i]),
    decreases list.len(),
{
    let shorter = list.drop_last();
    let rest = kept_within(shorter, room);
    if i < rest.len() {
        lemma_kept_are_candidates(shorter, room, i);
        let k = choose|k: int| 0 <= k < shorter.len() && shorter[k] == rest[i];
        assert(list[k] == kept_within(list, room)[i]);
    } else {
        assert(list[list.len() - 1] == kept_within(list, room)[i]);
    }
}

/// Nothing that reaches the wire in a diagnostic moves a cursor or disturbs a line,
/// whatever the failed command had written.
pub proof fn lemma_diagnostic_is_plain(report: ReportView, i: int)
    requires
        0 <= i < causes_of(report).len(),
    ensures
        all_plain(message_of(report)),
        all_plain(help_of(report)),
        all_plain(causes_of(report)[i]),
{
    lemma_sanitised_is_safe(report.message, MESSAGE_CAP as nat);
    if report.help is Some {
        lemma_sanitised_is_safe(report.help->0, HELP_CAP as nat);
    }
    let kept = kept_causes(report);
    if i < kept.len() {
        lemma_kept_are_candidates(candidates(report.causes), room_for_causes(report), i);
        let all = candidates(report.causes);
        let k = choose|k: int| 0 <= k < all.len() && all[k] == kept[i];
        lemma_sanitised_is_safe(report.causes[k], CAUSE_CAP as nat);
    } else {
        let dropped = dropped_causes(report);
        lemma_decimal_is_plain(dropped);
        reveal_strlit("\u{2026}");
        reveal_strlit(" more cause(s) dropped to stay within the 65536-byte Diagnostic budget");
        let tail = " more cause(s) dropped to stay within the 65536-byte Diagnostic budget"@;
        assert(all_plain(tail));
    }
}

proof fn lemma_kept_all(list: Seq<Seq<char>>, room: nat)
    ensures
        kept_within(list, room).len() == list.len() ==> kept_within(list, room) == list,
    decreases list.len(),
{
    lemma_kept_within(list, room);
    if list.len() > 0 {
        lemma_kept_within(list.drop_last(), room);
        lemma_kept_all(list.drop_last(), room);
        assert(list.drop_last().push(list.last()) =~= list);
    } else {
        assert(list =~= Seq::<Seq<char>>::empty());
    }
}

/// How many bytes `s` takes.
fn bytes_of(s: &String) -> (n: usize)
    ensures
        n == byte_len(s@),
{
    s.as_str().as_bytes().len()
}

/// The marker for `dropped` causes, where there are any.
fn drop_marker(dropped: usize) -> (r: Option<String>)
    ensures
        r is Some <==> dropped > 0,
        r is Some ==> r->0@ == marker_text(dropped as nat),
{
    if dropped == 0 {
        return None;
    }
    let mut marker = "\u{2026}".to_owned();
    push_decimal(&mut marker, dropped as u64);
    marker.push_str(" more cause(s) dropped to stay within the 65536-byte Diagnostic budget");
    assert(marker@ =~= marker_text(dropped as nat));
    Some(marker)
}

impl Diagnostic {
    /// The single place a failure crosses onto the wire.
    ///
    /// Every string is sanitised and capped. `causes` additionally answers to
    /// [`TOTAL_BUDGET`] and [`MAX_CAUSES`]: when either bound is the reason an
    /// entry is missing, a trailing marker says so, and the marker is charged
    /// against the budget like any other byte.
    pub fn from(report: &Report) -> (r: Diagnostic)
        ensures
            r.name@ == name_of(report@),
            r.message@ == message_of(report@),
            r.help@ == help_of(report@),
            texts(r.causes@) == causes_of(report@),
            byte_len(r.message@) + byte_len(r.help@) + total_bytes(texts(r.causes@))
                <= TOTAL_BUDGET,
    {
        let ghost view = report@;
        let total: usize = report.causes.len();
        proof {
            lemma_spent(view);
            lemma_diagnostic_stays_within_budget(view);
        }
        let name = match &report.code {
            Some(code) => sanitise(code.as_str(), NAME_CAP),
            None => FAILED.to_owned(),
        };
        let message = sanitise(report.message.as_str(), MESSAGE_CAP);
        let help = match &report.help {
            Some(help) => sanitise(help.as_str(), HELP_CAP),
            None => String::new(),
        };
        assert(help@ =~= help_of(view));

        let considered: usize = if total < MAX_CAUSES {
            total
        } else {
            MAX_CAUSES
        };
        let reserved: usize = match drop_marker(total) {
            Some(marker) => bytes_of(&marker),
            None => 0,
        };
        let spent: usize = bytes_of(&message) + bytes_of(&help);
        proof {
            lemma_marker_bytes(total as nat);
        }
        let room: usize = TOTAL_BUDGET - spent - reserved;
        let mut remaining: usize = room;
        let mut causes: Vec<String> = Vec::new();
        let ghost all = candidates(view.causes);
        assert(texts(causes@) =~= Seq::<Seq<char>>::empty());
        let mut i: usize = 0;
        while i < considered
            invariant
                i <= considered <= total,
                total == report.causes@.len(),
                view == report@,
                considered == all.len(),
                all == candidates(view.causes),
                texts(causes@) == kept_within(all.take(i as int), room as nat),
                remaining + total_bytes(texts(causes@)) == room,
                causes@.len() <= i,
            decreases considered - i,
        {
            let cause = sanitise(report.causes[i].as_str(), CAUSE_CAP);
            let ghost before = texts(causes@);
            proof {
                assert(view.causes[i as int] == report.causes@[i as int]@);
                assert(all[i as int] == cause@);
                assert(all.take(i + 1).drop_last() =~= all.take(i as int));
            }
            let size: usize = bytes_of(&cause);
            if size <= remaining {
                remaining = remaining - size;
                causes.push(cause);
                proof {
                    assert(texts(causes@) =~= before.push(cause@));
                    assert(before.push(cause@).drop_last() =~= before);
                }
            }
            i += 1;
        }
        proof {
            assert(all.take(all.len() as int) =~= all);
            assert(texts(causes@).len() == causes@.len());
        }
        let ghost kept = texts(causes@);
        let dropped: usize = total - causes.len();
        match drop_marker(dropped) {
            Some(marker) => {
                causes.push(marker);
                assert(texts(causes@) =~= kept.push(marker_text(dropped as nat)));
            },
            None => {},
        }
        Diagnostic { name, message, help, causes }
    }
}

/// Causes are taken from the first to the last, each that still fits behind those taken
/// before it; one that does not is passed over and ends nothing. `p` says which are taken.
pub proof fn lemma_causes_are_taken_while_they_fit(list: Seq<Seq<char>>, room: nat) -> (p: Seq<int>)
    ensures
        p.len() == kept_within(list, room).len(),
        forall|a: int|
            0 <= a < p.len() ==> 0 <= #[trigger] p[a] < list.len() && kept_within(list, room)[a]
                == list[p[a]],
        forall|a: int, b: int| 0 <= a < b < p.len() ==> #[trigger] p[a] < #[trigger] p[b],
        forall|i: int|
            0 <= i < list.len() ==> (p.contains(i) <==> total_bytes(
                kept_within(#[trigger] list.take(i), room),
            ) + byte_len(list[i]) <= room),
    decreases list.len(),
{
    if list.len() == 0 {
        Seq::empty()
    } else {
        let shorter = list.drop_last();
        let q = lemma_causes_are_taken_while_they_fit(shorter, room);
        let rest = kept_within(shorter, room);
        let kept = kept_within(list, room);
        let n = list.len() - 1;
        assert(list[n] == list.last());
        assert(list.take(n) =~= shorter);
        let taken = total_bytes(rest) + byte_len(list.last()) <= room;
        let p = if taken {
            q.push(n)
        } else {
            q
        };
        assert forall|a: int| 0 <= a < p.len() implies 0 <= #[trigger] p[a] < list.len() && kept[a]
            == list[p[a]] by {
            if a < q.len() {
                assert(p[a] == q[a]);
                assert(shorter[q[a]] == list[q[a]]);
                assert(kept[a] == rest[a]);
            }
        }
        assert forall|i: int| 0 <= i < list.len() implies (p.contains(i) <==> total_bytes(
            kept_within(#[trigger] list.take(i), room),
        ) + byte_len(list[i]) <= room) by {
            if i < n {
                assert(shorter.take(i) =~= list.take(i));
                assert(shorter[i] == list[i]);
                if p.contains(i) {
                    let a = choose|a: int| 0 <= a < p.len() && p[a] == i;
                    assert(q[a] == i);
                }
                if q.contains(i) {
                    let a = choose|a: int| 0 <= a < q.len() && q[a] == i;
                    assert(p[a] == i);
                }
            } else if taken {
                assert(p[p.len() - 1] == n);
            } else if p.contains(n) {
                let a = choose|a: int| 0 <= a < p.len() && p[a] == n;
                assert(q[a] < n);
            }
        }
        p
    }
}

/// What takes room is counted byte by byte: a list takes what its members take together.
pub proof fn lemma_bytes_add_up(list: Seq<Seq<char>>, text: Seq<char>)
    ensures
        total_bytes(Seq::empty()) == 0,
        total_bytes(list.push(text)) == total_bytes(list) + vstd::utf8::encode_utf8(text).len(),
{
    assert(list.push(text).drop_last() =~= list);
}

/// What a diagnostic is made of. A report without a code is simply a failure, and one
/// without advice gives none. A code is cut to 128 characters, the message to 8192, the
/// advice to 2048. Of the causes the first 16 are considered, each cut to 4096
/// characters, in the 65536 bytes that everything but the code has to share.
pub proof fn lemma_what_a_diagnostic_is_made_of(report: ReportView)
    requires
        report.causes.len() <= u64::MAX,
    ensures
        report.code is None ==> name_of(report) == "org.pm1.Error.Failed"@,
        report.code matches Some(code) ==> name_of(report) == sanitised(code, 128),
        message_of(report) == sanitised(report.message, 8192),
        report.help is None ==> help_of(report).len() == 0,
        report.help matches Some(help) ==> help_of(report) == sanitised(help, 2048),
        report.causes.len() <= 16 ==> candidates(report.causes).len() == report.causes.len(),
        report.causes.len() > 16 ==> candidates(report.causes).len() == 16,
        forall|i: int|
            0 <= i < candidates(report.causes).len() ==> #[trigger] candidates(report.causes)[i]
                == sanitised(report.causes[i], 4096),
        room_for_causes(report) + byte_len(message_of(report)) + byte_len(help_of(report)) + (
        if report.causes.len() == 0 {
            0
        } else {
            byte_len(marker_text(report.causes.len()))
        }) == 65536,
        kept_causes(report) == kept_within(candidates(report.causes), room_for_causes(report)),
        kept_causes(report).len() == report.causes.len() ==> causes_of(report) == kept_causes(
            report,
        ),
        kept_causes(report).len() < report.causes.len() ==> causes_of(report).drop_last()
            == kept_causes(report) && causes_of(report).last() == marker_text(
            (report.causes.len() - kept_causes(report).len()) as nat,
        ),
{
    lemma_spent(report);
    lemma_kept_within(candidates(report.causes), room_for_causes(report));
    if kept_causes(report).len() < report.causes.len() {
        assert(causes_of(report).drop_last() =~= kept_causes(report));
    }
}

/// The marker says how many causes are missing, and why.
pub proof fn lemma_what_the_marker_says(dropped: nat)
    ensures
        marker_text(dropped) == seq!['\u{2026}'] + decimal(dropped)
            + " more cause(s) dropped to stay within the 65536-byte Diagnostic budget"@,
{
    reveal_strlit("\u{2026}");
    assert("\u{2026}"@ =~= seq!['\u{2026}']);
    assert(marker_text(dropped) =~= seq!['\u{2026}'] + decimal(dropped)
        + " more cause(s) dropped to stay within the 65536-byte Diagnostic budget"@);
}

} // verus!

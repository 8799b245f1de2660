//! Ways to take a file, and the texts in which packets and events are printed.
use vstd::prelude::*;

use crate::filekind::FileKind;
use crate::pipeline::AnalysisEvent;
use crate::render::FloatText;
use crate::result::{DecodedPacket, Fields};
use crate::text::{chars_of, concat3, concat5, decimal_u64, decimal_usize};
#[allow(unused_imports)]
use crate::{error, pipeline::EventModel, render, result::PacketModel, result::ValueModel, text};

verus! {

/// The pattern where none is given: two or more bytes in hexadecimal, with or
/// without spaces between them.
pub const DEFAULT_PATTERN: &'static str = r"(?P<hex>[0-9a-fA-F]{2}(?:[ ]?[0-9a-fA-F]{2})+)";

/// How a file is taken.
#[derive(Debug, Clone, Copy, PartialEq, Eq, Structural)]
pub enum Mode {
    /// As text line by line, or as binary, whichever the file is.
    Auto,
    /// As text, one packet for each line with a match.
    Line,
    /// As text, one packet of all the matches.
    Whole,
    /// As binary, without a search for payloads.
    Binary,
}

/// What a mode is called.
pub open spec fn mode_label(m: Mode) -> Seq<char> {
    match m {
        Mode::Auto => "Auto (detect text/binary)"@,
        Mode::Line => "Text: line by line"@,
        Mode::Whole => "Text: whole file"@,
        Mode::Binary => "Binary: whole file"@,
    }
}

/// The mode that a request comes to: what is asked for, or, where that is left
/// open, what fits the file.
pub open spec fn settled(requested: Mode, detected: FileKind) -> Mode {
    match (requested, detected) {
        (Mode::Auto, FileKind::Binary) => Mode::Binary,
        (Mode::Auto, FileKind::Text) => Mode::Line,
        (other, _) => other,
    }
}

impl Mode {
    /// All the modes, in the order in which they are offered.
    pub fn all() -> (r: [Mode; 4])
        ensures
            r@ == seq![Mode::Auto, Mode::Line, Mode::Whole, Mode::Binary],
    {
        let r = [Mode::Auto, Mode::Line, Mode::Whole, Mode::Binary];
        assert(r@ =~= seq![Mode::Auto, Mode::Line, Mode::Whole, Mode::Binary]);
        r
    }

    /// What the mode is called.
    pub fn label(self) -> (r: &'static str)
        ensures
            r@ == mode_label(self),
    {
        match self {
            Mode::Auto => "Auto (detect text/binary)",
            Mode::Line => "Text: line by line",
            Mode::Whole => "Text: whole file",
            Mode::Binary => "Binary: whole file",
        }
    }
}

/// Settles the mode for a file.
pub fn resolve_mode(requested: Mode, detected: FileKind) -> (r: Mode)
    ensures
        r == settled(requested, detected),
{
    match requested {
        Mode::Auto => match detected {
            FileKind::Binary => Mode::Binary,
            FileKind::Text => Mode::Line,
        },
        other => other,
    }
}

// ---------------------------------------------------------------------------
// Order of names
// ---------------------------------------------------------------------------

/// `a` comes before `b` in the order of their characters' code points.
pub open spec fn precedes(a: Seq<char>, b: Seq<char>) -> bool
    decreases a.len(),
{
    if b.len() == 0 {
        false
    } else if a.len() == 0 {
        true
    } else if a[0] != b[0] {
        a[0] < b[0]
    } else {
        precedes(a.drop_first(), b.drop_first())
    }
}

/// Named values in some order.
pub type Entries = Seq<(Seq<char>, ValueModel)>;

/// `s` with `e` put in before the entries at the end that come after it.
pub open spec fn placed(s: Entries, e: (Seq<char>, ValueModel)) -> Entries
    decreases s.len(),
{
    if s.len() > 0 && precedes(e.0, s.last().0) {
        placed(s.drop_last(), e).push(s.last())
    } else {
        s.push(e)
    }
}

/// The entries in the order of their names.
pub open spec fn in_order(s: Entries) -> Entries
    decreases s.len(),
{
    if s.len() == 0 {
        Seq::empty()
    } else {
        placed(in_order(s.drop_last()), s.last())
    }
}

fn comes_before(a: &str, b: &str) -> (r: bool)
    ensures
        r == precedes(a@, b@),
{
    let x = chars_of(a);
    let y = chars_of(b);
    let mut i: usize = 0;
    proof {
        assert(x@.skip(0) =~= x@);
        assert(y@.skip(0) =~= y@);
    }
    loop
        invariant
            x@ == a@,
            y@ == b@,
            i <= x@.len(),
            i <= y@.len(),
            precedes(a@, b@) == precedes(x@.skip(i as int), y@.skip(i as int)),
        decreases x@.len() - i,
    {
        if i >= y.len() {
            return false;
        }
        if i >= x.len() {
            return true;
        }
        assert(x@.skip(i as int)[0] == x@[i as int]);
        assert(y@.skip(i as int)[0] == y@[i as int]);
        if x[i] != y[i] {
            return x[i] < y[i];
        }
        assert(x@.skip(i as int).drop_first() =~= x@.skip(i + 1));
        assert(y@.skip(i as int).drop_first() =~= y@.skip(i + 1));
        i = i + 1;
    }
}

/// The entries at these places.
spec fn at_places(f: Entries, places: Seq<usize>) -> Entries {
    Seq::new(places.len(), |i: int| f[places[i] as int])
}

fn place(fields: &Fields, places: &Vec<usize>, e: usize) -> (r: Vec<usize>)
    requires
        e < fields@.len(),
        forall|i: int| 0 <= i < places@.len() ==> #[trigger] places@[i] < fields@.len(),
    ensures
        at_places(fields@, r@) == placed(at_places(fields@, places@), fields@[e as int]),
        forall|i: int| 0 <= i < r@.len() ==> #[trigger] r@[i] < fields@.len(),
        r@.len() == places@.len() + 1,
{
    let ghost all = at_places(fields@, places@);
    let ghost entry = fields@[e as int];
    let mut n: usize = places.len();
    proof {
        assert(all.take(n as int) =~= all);
        assert(placed(all, entry) + all.skip(n as int) =~= placed(all, entry));
    }
    while n > 0 && comes_before(
        fields.name_at(e).as_str(),
        fields.name_at(places[n - 1]).as_str(),
    )
        invariant
            n <= places@.len(),
            e < fields@.len(),
            all == at_places(fields@, places@),
            entry == fields@[e as int],
            forall|i: int| 0 <= i < places@.len() ==> #[trigger] places@[i] < fields@.len(),
            placed(all, entry) == placed(all.take(n as int), entry) + all.skip(n as int),
        decreases n,
    {
        proof {
            let now = all.take(n as int);
            assert(now.last() == all[n - 1]);
            assert(now.drop_last() =~= all.take(n - 1));
            assert(placed(now, entry) == placed(all.take(n - 1), entry).push(all[n - 1]));
            assert(placed(all.take(n - 1), entry).push(all[n - 1]) + all.skip(n as int) =~= placed(
                all.take(n - 1),
                entry,
            ) + all.skip(n - 1));
        }
        n = n - 1;
    }
    let mut out: Vec<usize> = Vec::new();
    let count: usize = places.len();
    let mut i: usize = 0;
    while i < n
        invariant
            i <= n <= places@.len(),
            out@ =~= places@.take(i as int),
        decreases n - i,
    {
        out.push(places[i]);
        i = i + 1;
    }
    out.push(e);
    while i < count
        invariant
            n <= i <= count == places@.len(),
            out@ =~= places@.take(n as int) + seq![e] + places@.subrange(n as int, i as int),
        decreases count - i,
    {
        out.push(places[i]);
        i = i + 1;
    }
    proof {
        if n > 0 {
            assert(all.take(n as int).last() == all[n - 1]);
        }
        assert(placed(all.take(n as int), entry) == all.take(n as int).push(entry));
        assert(at_places(fields@, out@) =~= all.take(n as int).push(entry) + all.skip(n as int));
    }
    out
}

/// The places of the fields in the order of their names.
fn sorted_places(fields: &Fields) -> (r: Vec<usize>)
    ensures
        at_places(fields@, r@) == in_order(fields@),
        forall|i: int| 0 <= i < r@.len() ==> #[trigger] r@[i] < fields@.len(),
        r@.len() == fields@.len(),
{
    let count: usize = fields.len();
    let mut places: Vec<usize> = Vec::new();
    let mut i: usize = 0;
    proof {
        assert(fields@.take(0) =~= Seq::<(Seq<char>, ValueModel)>::empty());
        assert(at_places(fields@, places@) =~= Seq::<(Seq<char>, ValueModel)>::empty());
    }
    while i < count
        invariant
            i <= count == fields@.len(),
            places@.len() == i,
            forall|k: int| 0 <= k < places@.len() ==> #[trigger] places@[k] < fields@.len(),
            at_places(fields@, places@) == in_order(fields@.take(i as int)),
        decreases count - i,
    {
        proof {
            assert(fields@.take(i + 1).drop_last() =~= fields@.take(i as int));
            assert(fields@.take(i + 1).last() == fields@[i as int]);
        }
        places = place(fields, &places, i);
        i = i + 1;
    }
    assert(fields@.take(i as int) =~= fields@);
    places
}

// ---------------------------------------------------------------------------
// Texts
// ---------------------------------------------------------------------------

/// The heading of a packet.
pub open spec fn heading_text(p: PacketModel) -> Seq<char> {
    "packet #"@ + text::decimal(p.index as nat) + " ("@ + text::decimal(p.raw_bytes.len())
        + " bytes)"@
}

/// The line of a field.
pub open spec fn field_line(e: (Seq<char>, ValueModel), t: render::FloatTable) -> Seq<char> {
    e.0 + ": "@ + render::display_text(e.1, t)
}

/// The lines of fields, in this order.
pub open spec fn field_lines(f: Entries, t: render::FloatTable) -> Seq<Seq<char>> {
    Seq::new(f.len(), |i: int| field_line(f[i], t))
}

/// The first `n` lines, each with its end.
pub open spec fn ended_lines(lines: Seq<Seq<char>>, n: int) -> Seq<char>
    decreases n,
{
    if n <= 0 || n > lines.len() {
        Seq::empty()
    } else {
        ended_lines(lines, n - 1) + lines[n - 1] + "\n"@
    }
}

/// A packet as it is printed: a heading, and the fields in the order of their
/// names.
pub open spec fn packet_text(p: PacketModel, t: render::FloatTable) -> Seq<char> {
    let lines = field_lines(in_order(p.fields), t);
    "--- "@ + heading_text(p) + " ---\n"@ + ended_lines(lines, lines.len() as int)
}

/// Every floating-point number in the event has its texts in `t`.
pub open spec fn event_covered(e: EventModel, t: render::FloatTable) -> bool {
    match e {
        EventModel::Packet(p) => render::entries_covered(p.fields, t),
        EventModel::Error(e) => error::error_covered(e, t),
        _ => true,
    }
}

/// An event as it is printed.
pub open spec fn event_text(e: EventModel, t: render::FloatTable) -> Seq<char> {
    match e {
        EventModel::Packet(p) => packet_text(p, t),
        EventModel::Warning(w) => "warning: "@ + w + "\n"@,
        EventModel::Error(e) => "error: "@ + error::error_text(e, t) + "\n"@,
        EventModel::Done(n) => "done: "@ + text::decimal(n as nat) + " packet(s) found\n"@,
    }
}

pub open spec fn line_models(lines: Seq<String>) -> Seq<Seq<char>> {
    Seq::new(lines.len(), |i: int| lines[i]@)
}

/// The floating-point numbers of a packet, whose texts [`format_packet`] asks
/// for.
pub fn packet_floats(pkt: &DecodedPacket) -> (r: Vec<u64>)
    ensures
        r@ == render::floats_in_entries(pkt.fields@, pkt.fields@.len() as int),
{
    let mut out: Vec<u64> = Vec::new();
    let mut i: usize = 0;
    while i < pkt.fields.len()
        invariant
            i <= pkt.fields@.len(),
            out@ == render::floats_in_entries(pkt.fields@, i as int),
        decreases pkt.fields@.len() - i,
    {
        let mut more = pkt.fields.value_at(i).floats();
        out.append(&mut more);
        i = i + 1;
    }
    out
}

/// The heading of a packet.
pub fn packet_heading(pkt: &DecodedPacket) -> (r: String)
    ensures
        r@ == heading_text(pkt@),
{
    concat5(
        "packet #",
        decimal_u64(pkt.index).as_str(),
        " (",
        decimal_usize(pkt.raw_bytes.len()).as_str(),
        " bytes)",
    )
}

/// The lines of a packet's fields, in the order of their names.
pub fn packet_lines(pkt: &DecodedPacket, floats: &Vec<FloatText>) -> (r: Vec<String>)
    requires
        render::entries_covered(pkt.fields@, render::float_table(floats@)),
    ensures
        line_models(r@) == field_lines(in_order(pkt.fields@), render::float_table(floats@)),
{
    let ghost t = render::float_table(floats@);
    let fields = &pkt.fields;
    let places = sorted_places(fields);
    let ghost ordered = in_order(fields@);
    let mut lines: Vec<String> = Vec::new();
    let mut i: usize = 0;
    while i < places.len()
        invariant
            t == render::float_table(floats@),
            render::entries_covered(fields@, t),
            ordered == at_places(fields@, places@),
            forall|k: int| 0 <= k < places@.len() ==> #[trigger] places@[k] < fields@.len(),
            i <= places@.len(),
            lines@.len() == i,
            forall|k: int| 0 <= k < i ==> (#[trigger] lines@[k])@ == field_line(ordered[k], t),
        decreases places@.len() - i,
    {
        let k: usize = places[i];
        assert(render::covered(fields@[k as int].1, t));
        let shown = fields.value_at(k).display(floats);
        lines.push(concat3(fields.name_at(k).as_str(), ": ", shown.as_str()));
        i = i + 1;
    }
    assert(line_models(lines@) =~= field_lines(ordered, t));
    lines
}

/// A packet as it is printed.
pub fn format_packet(pkt: &DecodedPacket, floats: &Vec<FloatText>) -> (r: String)
    requires
        render::entries_covered(pkt.fields@, render::float_table(floats@)),
    ensures
        r@ == packet_text(pkt@, render::float_table(floats@)),
{
    let lines = packet_lines(pkt, floats);
    let ghost all = line_models(lines@);
    let mut body = String::new();
    let mut i: usize = 0;
    while i < lines.len()
        invariant
            all == line_models(lines@),
            i <= lines@.len(),
            body@ == ended_lines(all, i as int),
        decreases lines@.len() - i,
    {
        body.append(lines[i].as_str());
        body.append("\n");
        i = i + 1;
    }
    let mut out = concat3("--- ", packet_heading(pkt).as_str(), " ---\n");
    out.append(body.as_str());
    out
}

impl AnalysisEvent {
    /// The floating-point numbers in the event, whose texts [`format_event`]
    /// asks for.
    pub fn floats(&self) -> (r: Vec<u64>)
        ensures
            r@ == (match self@ {
                EventModel::Packet(p) => render::floats_in_entries(p.fields, p.fields.len() as int),
                EventModel::Error(e) => error::error_floats(e),
                _ => Seq::empty(),
            }),
    {
        match self {
            AnalysisEvent::Packet(p) => packet_floats(p),
            AnalysisEvent::Error(e) => e.floats(),
            _ => Vec::new(),
        }
    }
}

/// An event as it is printed.
pub fn format_event(event: &AnalysisEvent, floats: &Vec<FloatText>) -> (r: String)
    requires
        event_covered(event@, render::float_table(floats@)),
    ensures
        r@ == event_text(event@, render::float_table(floats@)),
{
    match event {
        AnalysisEvent::Packet(p) => format_packet(p, floats),
        AnalysisEvent::Warning(w) => concat3("warning: ", w.as_str(), "\n"),
        AnalysisEvent::Error(e) => concat3("error: ", e.message(floats).as_str(), "\n"),
        AnalysisEvent::Done { packets_found } => concat3(
            "done: ",
            decimal_u64(*packets_found).as_str(),
            " packet(s) found\n",
        ),
    }
}

// ---------------------------------------------------------------------------
// Laws
// ---------------------------------------------------------------------------

/// What comes before comes not after.
proof fn lemma_precedes_one_way(a: Seq<char>, b: Seq<char>)
    ensures
        !(precedes(a, b) && precedes(b, a)),
    decreases a.len(),
{
    if a.len() > 0 && b.len() > 0 {
        lemma_precedes_one_way(a.drop_first(), b.drop_first());
    }
}

/// Not coming after is transitive.
proof fn lemma_not_after(a: Seq<char>, b: Seq<char>, c: Seq<char>)
    requires
        !precedes(b, a),
        !precedes(c, b),
    ensures
        !precedes(c, a),
    decreases a.len(),
{
    if a.len() > 0 && a[0] == b[0] && b[0] == c[0] {
        lemma_not_after(a.drop_first(), b.drop_first(), c.drop_first());
    }
}

/// No name comes before an earlier one.
pub open spec fn ordered(s: Entries) -> bool {
    forall|i: int, j: int|
        0 <= i < j < s.len() ==> !precedes((#[trigger] s[j]).0, (#[trigger] s[i]).0)
}

proof fn lemma_placed(s: Entries, e: (Seq<char>, ValueModel))
    requires
        ordered(s),
    ensures
        ordered(placed(s, e)),
        placed(s, e).len() == s.len() + 1,
        placed(s, e).to_multiset() == s.to_multiset().insert(e),
        forall|i: int|
            0 <= i < placed(s, e).len() ==> (#[trigger] placed(s, e)[i] == e || s.contains(
                placed(s, e)[i],
            )),
    decreases s.len(),
{
    broadcast use vstd::seq_lib::group_to_multiset_ensures;

    let r = placed(s, e);
    if s.len() > 0 && precedes(e.0, s.last().0) {
        let init = s.drop_last();
        let inner = placed(init, e);
        lemma_placed(init, e);
        assert(init.push(s.last()) =~= s);
        assert(s.to_multiset() == init.to_multiset().insert(s.last()));
        assert(r.to_multiset() =~= s.to_multiset().insert(e));
        assert forall|i: int| 0 <= i < r.len() implies (#[trigger] r[i] == e || s.contains(r[i])) by {
            if i < inner.len() {
                assert(r[i] == inner[i]);
                if inner[i] != e {
                    let k = choose|k: int| 0 <= k < init.len() && init[k] == inner[i];
                    assert(s[k] == inner[i]);
                }
            } else {
                assert(s[s.len() - 1] == r[i]);
            }
        }
        assert forall|i: int, j: int| 0 <= i < j < r.len() implies !precedes(
            (#[trigger] r[j]).0,
            (#[trigger] r[i]).0,
        ) by {
            if j < inner.len() {
                assert(r[i] == inner[i] && r[j] == inner[j]);
            } else {
                assert(r[j] == s.last());
                assert(r[i] == inner[i]);
                if inner[i] == e {
                    lemma_precedes_one_way(e.0, s.last().0);
                } else {
                    let k = choose|k: int| 0 <= k < init.len() && init[k] == inner[i];
                    assert(s[k] == r[i]);
                    assert(!precedes(s[s.len() - 1].0, s[k].0));
                }
            }
        }
    } else {
        assert forall|i: int| 0 <= i < r.len() implies (#[trigger] r[i] == e || s.contains(r[i])) by {
            if i < s.len() {
                assert(r[i] == s[i]);
            }
        }
        assert forall|i: int, j: int| 0 <= i < j < r.len() implies !precedes(
            (#[trigger] r[j]).0,
            (#[trigger] r[i]).0,
        ) by {
            assert(r[i] == s[i]);
            if j < s.len() {
                assert(r[j] == s[j]);
            } else if i < s.len() - 1 {
                assert(!precedes(s[s.len() - 1].0, s[i].0));
                lemma_not_after(s[i].0, s.last().0, e.0);
            }
        }
    }
}

/// A packet's fields are printed in the order of their names, each once: what is
/// printed is ordered, and holds the same entries.
pub proof fn law_fields_are_printed_in_order(f: Entries)
    ensures
        ordered(in_order(f)),
        in_order(f).to_multiset() == f.to_multiset(),
    decreases f.len(),
{
    broadcast use vstd::seq_lib::group_to_multiset_ensures;

    if f.len() > 0 {
        law_fields_are_printed_in_order(f.drop_last());
        lemma_placed(in_order(f.drop_last()), f.last());
        assert(f.drop_last().push(f.last()) =~= f);
    } else {
        assert(f =~= Seq::empty());
    }
}

} // verus!

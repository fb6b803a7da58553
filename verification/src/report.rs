//! What is shown of runs: summaries, snapshots and the differences between two runs.
//!
//! A report is a list of lines and a line is a list of spans, each with the tone that a terminal
//! may paint it in.

use crate::json::{json_of_value, json_show_pretty};
use crate::json::{json_pretty_text, json_text, val_tree};
use crate::record::{run_to_json, show_uuid, RunRecord, RunStatus};
use crate::record::{run_tree, time_offset_text, uuid_text, MetaRec, RunRec};
use crate::runtext::lasting;
use crate::strmap::StrMap;
use crate::strmap::{
    ascending, lemma_lookup_absent, lemma_lookup_at, lemma_lookup_found, lemma_put_ascending,
    lemma_put_lookup, lookup, put,
};
use crate::text::lemma_first_replaced;
use crate::text::{cat, cat3, join, pad, replace_first, same_text, size_text, trim, unsigned_text};
use crate::text::{
    digits_value, joined, lemma_numeral_read, lemma_padded, numeral, occurs, occurs_at, padded,
    text_lt, texts, trimmed, with_first,
};
use crate::value::{
    dict_view, lemma_dict_view, lemma_pair_vals_lookup, list_view, pair_vals, same_value, val_eq,
    Val, Value,
};
use vstd::prelude::*;

verus! {

/// How a span is to stand out.
#[derive(Clone, Copy, Debug, PartialEq, Eq, Structural)]
pub enum Tone {
    Plain,
    Bold,
    BoldUnderline,
    Dimmed,
    Cyan,
    Green,
    GreenBold,
    Red,
    RedBold,
    Yellow,
    YellowBold,
}

/// A piece of a line.
#[derive(Debug)]
pub struct Span {
    pub tone: Tone,
    pub text: String,
}

/// A tone and the text that has it.
pub type Toned = (Tone, Seq<char>);

impl Span {
    pub open spec fn view(&self) -> Toned {
        (self.tone, self.text@)
    }
}

/// The spans of a line.
pub open spec fn spans(line: Seq<Span>) -> Seq<Toned> {
    Seq::new(line.len(), |i: int| line[i]@)
}

/// The spans of each line.
pub open spec fn lines(v: Seq<Vec<Span>>) -> Seq<Seq<Toned>> {
    Seq::new(v.len(), |i: int| spans(v[i]@))
}

/// What a line says.
pub open spec fn line_text(line: Seq<Toned>) -> Seq<char>
    decreases line.len(),
{
    if line.len() == 0 {
        Seq::empty()
    } else {
        line_text(line.drop_last()) + line.last().1
    }
}

/// What the lines say, each on a line of its own.
pub open spec fn report_text(v: Seq<Seq<Toned>>) -> Seq<char> {
    joined(Seq::new(v.len(), |i: int| line_text(v[i])), "\n"@)
}

fn plain_line(line: &Vec<Span>) -> (r: String)
    ensures
        r@ == line_text(spans(line@)),
{
    let mut out = String::new();
    let mut i: usize = 0;
    while i < line.len()
        invariant
            i <= line@.len(),
            out@ == line_text(spans(line@).take(i as int)),
        decreases line.len() - i,
    {
        out.append(line[i].text.as_str());
        assert(spans(line@).take(i + 1).drop_last() =~= spans(line@).take(i as int));
        i += 1;
    }
    assert(spans(line@).take(i as int) =~= spans(line@));
    out
}

/// What a report says, without its tones.
pub fn plain_text(report: &Vec<Vec<Span>>) -> (r: String)
    ensures
        r@ == report_text(lines(report@)),
{
    let mut parts: Vec<String> = Vec::new();
    let mut i: usize = 0;
    while i < report.len()
        invariant
            i <= report@.len(),
            parts@.len() == i,
            forall|j: int|
                0 <= j < i ==> (#[trigger] parts@[j])@ == line_text(spans(report@[j]@)),
        decreases report.len() - i,
    {
        parts.push(plain_line(&report[i]));
        i += 1;
    }
    assert(texts(parts@) =~= Seq::new(
        lines(report@).len(),
        |j: int| line_text(lines(report@)[j]),
    ));
    join(&parts, "\n")
}

fn span(tone: Tone, text: &str) -> (r: Span)
    ensures
        r@ == (tone, text@),
{
    Span { tone, text: text.to_owned() }
}

fn line1(a: Span) -> (r: Vec<Span>)
    ensures
        spans(r@) == seq![a@],
{
    let mut v: Vec<Span> = Vec::new();
    v.push(a);
    assert(spans(v@) =~= seq![a@]);
    v
}

fn line2(a: Span, b: Span) -> (r: Vec<Span>)
    ensures
        spans(r@) == seq![a@, b@],
{
    let mut v: Vec<Span> = Vec::new();
    v.push(a);
    v.push(b);
    assert(spans(v@) =~= seq![a@, b@]);
    v
}

fn line3(a: Span, b: Span, c: Span) -> (r: Vec<Span>)
    ensures
        spans(r@) == seq![a@, b@, c@],
{
    let mut v: Vec<Span> = Vec::new();
    v.push(a);
    v.push(b);
    v.push(c);
    assert(spans(v@) =~= seq![a@, b@, c@]);
    v
}

fn add_span(line: &mut Vec<Span>, a: Span)
    ensures
        spans(final(line)@) == spans(old(line)@).push(a@),
{
    line.push(a);
    assert(spans(line@) =~= spans(old(line)@).push(a@));
}

fn blank_line() -> (r: Vec<Span>)
    ensures
        spans(r@) == Seq::<Toned>::empty(),
{
    let v: Vec<Span> = Vec::new();
    assert(spans(v@) =~= Seq::<Toned>::empty());
    v
}

/// Adds a line to a report.
fn say(report: &mut Vec<Vec<Span>>, line: Vec<Span>)
    ensures
        lines(final(report)@) == lines(old(report)@).push(spans(line@)),
{
    report.push(line);
    assert(lines(report@) =~= lines(old(report)@).push(spans(line@)));
}

/// Adds lines to a report.
fn say_all(report: &mut Vec<Vec<Span>>, more: Vec<Vec<Span>>)
    ensures
        lines(final(report)@) == lines(old(report)@) + lines(more@),
{
    let mut rest = more;
    report.append(&mut rest);
    assert(lines(report@) =~= lines(old(report)@) + lines(more@));
}

/// The text that a value is shown as.
pub fn format_value(value: &Value) -> (r: String)
    ensures
        r@ == json_text(val_tree(value@)),
{
    json_of_value(value)
}

/// The line for an entry of a snapshot.
pub open spec fn entry_line(key: Seq<char>, value: Val) -> Seq<Toned> {
    seq![(Tone::Plain, "  "@ + padded(key, 20) + " "@ + json_text(val_tree(value)))]
}

/// The line for an item of a snapshot.
pub open spec fn item_line(value: Val) -> Seq<Toned> {
    seq![(Tone::Plain, "  - "@ + json_text(val_tree(value)))]
}

/// The line for a snapshot that holds nothing.
pub open spec fn none_line() -> Seq<Toned> {
    seq![(Tone::Plain, "  "@), (Tone::Dimmed, "<none>"@)]
}

/// The lines that show entries by key.
pub open spec fn entry_lines(entries: Seq<(Seq<char>, Val)>) -> Seq<Seq<Toned>> {
    if entries.len() == 0 {
        seq![none_line()]
    } else {
        Seq::new(entries.len(), |i: int| entry_line(entries[i].0, entries[i].1))
    }
}

/// The lines that show items.
pub open spec fn item_lines(items: Seq<Val>) -> Seq<Seq<Toned>> {
    if items.len() == 0 {
        seq![none_line()]
    } else {
        Seq::new(items.len(), |i: int| item_line(items[i]))
    }
}

/// The lines that show a snapshot.
pub open spec fn snapshot_lines(v: Val) -> Seq<Seq<Toned>> {
    match v {
        Val::Dict(entries) => entry_lines(entries),
        Val::Object(entries) => entry_lines(entries),
        Val::Table(items) => item_lines(items),
        Val::List(items) => item_lines(items),
        _ => seq![seq![(Tone::Plain, "  "@ + json_text(val_tree(v)))]],
    }
}

fn show_entries(values: &StrMap<Value>) -> (r: Vec<Vec<Span>>)
    ensures
        lines(r@) == entry_lines(dict_view(*values)),
{
    proof {
        lemma_dict_view(*values);
    }
    let ghost entries = pair_vals(values.pairs());
    let mut out: Vec<Vec<Span>> = Vec::new();
    if values.is_empty() {
        say(&mut out, line2(span(Tone::Plain, "  "), span(Tone::Dimmed, "<none>")));
        assert(lines(out@) =~= seq![none_line()]);
        return out;
    }
    let n: usize = values.len();
    let mut i: usize = 0;
    while i < n
        invariant
            i <= n,
            n == values.pairs().len(),
            entries == pair_vals(values.pairs()),
            lines(out@).len() == i,
            forall|j: int|
                0 <= j < i ==> (#[trigger] lines(out@)[j]) == entry_line(
                    entries[j].0,
                    entries[j].1,
                ),
        decreases n - i,
    {
        let key = pad(values.key_at(i), 20);
        let value = format_value(values.value_at(i));
        let mut text = cat3("  ", key.as_str(), " ");
        text.append(value.as_str());
        say(&mut out, line1(Span { tone: Tone::Plain, text }));
        i += 1;
    }
    assert(lines(out@) =~= entry_lines(entries));
    out
}

fn show_items(rows: &Vec<Value>) -> (r: Vec<Vec<Span>>)
    ensures
        lines(r@) == item_lines(list_view(*rows)),
{
    let ghost items = list_view(*rows);
    let mut out: Vec<Vec<Span>> = Vec::new();
    if rows.len() == 0 {
        say(&mut out, line2(span(Tone::Plain, "  "), span(Tone::Dimmed, "<none>")));
        assert(lines(out@) =~= seq![none_line()]);
        return out;
    }
    let mut i: usize = 0;
    while i < rows.len()
        invariant
            i <= rows@.len(),
            items == list_view(*rows),
            lines(out@).len() == i,
            forall|j: int| 0 <= j < i ==> (#[trigger] lines(out@)[j]) == item_line(items[j]),
        decreases rows.len() - i,
    {
        let text = cat("  - ", format_value(&rows[i]).as_str());
        say(&mut out, line1(Span { tone: Tone::Plain, text }));
        i += 1;
    }
    assert(lines(out@) =~= item_lines(items));
    out
}

/// Shows a snapshot: its entries or items, one on each line.
pub fn print_snapshot(snapshot: &Value) -> (r: Vec<Vec<Span>>)
    ensures
        lines(r@) == snapshot_lines(snapshot@),
{
    match snapshot {
        Value::Dict(values) => show_entries(values),
        Value::Object(values) => show_entries(values),
        Value::Table(rows) => show_items(rows),
        Value::List(rows) => show_items(rows),
        other => {
            let mut out: Vec<Vec<Span>> = Vec::new();
            let text = cat("  ", format_value(other).as_str());
            say(&mut out, line1(Span { tone: Tone::Plain, text }));
            assert(lines(out@) =~= snapshot_lines(snapshot@));
            out
        },
    }
}

/// A row of the summary of a run.
#[derive(Debug)]
pub struct SummaryRow {
    pub key: String,
    pub value: Span,
}

/// The keys and values of summary rows.
pub open spec fn rows(v: Seq<SummaryRow>) -> Seq<(Seq<char>, Toned)> {
    Seq::new(v.len(), |i: int| (v[i].key@, v[i].value@))
}

/// What is said of how a run ended.
pub open spec fn status_label(s: RunStatus) -> Toned {
    match s {
        RunStatus::Completed => (Tone::GreenBold, "Success"@),
        RunStatus::Failed => (Tone::RedBold, "Failure"@),
        RunStatus::Started => (Tone::YellowBold, "Started"@),
    }
}

/// The rows that every summary has.
pub open spec fn common_rows(d: MetaRec) -> Seq<(Seq<char>, Toned)> {
    seq![
        ("Run ID"@, (Tone::Plain, d.run_id)),
        ("Pipeline"@, (Tone::Plain, d.pipeline_name)),
        ("Status"@, status_label(d.status)),
        ("Duration"@, (Tone::Plain, numeral(d.duration_ms as nat) + "ms"@)),
        ("Nodes"@, (Tone::Plain, numeral(d.nodes_executed as nat))),
        (
            "Started"@,
            (
                Tone::Plain,
                match time_offset_text(d.start_time.secs(), d.start_time.nanos()) {
                    Some(t) => t,
                    None => Seq::empty(),
                },
            ),
        ),
    ]
}

/// The row that names the run that this one repeats, if there is one.
pub open spec fn ancestor_rows(d: MetaRec) -> Seq<(Seq<char>, Toned)> {
    match d.ancestor_run_id {
        Some(n) => seq![("Ancestor"@, (Tone::Plain, uuid_text(n)))],
        None => Seq::empty(),
    }
}

/// The row that says why the run failed, if that is known.
pub open spec fn error_rows(d: MetaRec) -> Seq<(Seq<char>, Toned)> {
    match d.error_message {
        Some(e) => seq![("Error"@, (Tone::Plain, e))],
        None => Seq::empty(),
    }
}

fn add_row(v: &mut Vec<SummaryRow>, key: &str, value: Span)
    ensures
        rows(final(v)@) == rows(old(v)@).push((key@, value@)),
{
    v.push(SummaryRow { key: key.to_owned(), value });
    assert(rows(v@) =~= rows(old(v)@).push((key@, value@)));
}

/// The table that a summary of a run begins with.
pub fn summary_rows(record: &RunRecord) -> (r: Vec<SummaryRow>)
    ensures
        rows(r@) == common_rows(record@.metadata) + ancestor_rows(record@.metadata) + error_rows(
            record@.metadata,
        ),
{
    let d = &record.metadata;
    let mut out: Vec<SummaryRow> = Vec::new();
    add_row(&mut out, "Run ID", span(Tone::Plain, d.run_id.as_str()));
    add_row(&mut out, "Pipeline", span(Tone::Plain, d.pipeline_name.as_str()));
    let label = match d.status {
        RunStatus::Completed => span(Tone::GreenBold, "Success"),
        RunStatus::Failed => span(Tone::RedBold, "Failure"),
        RunStatus::Started => span(Tone::YellowBold, "Started"),
    };
    add_row(&mut out, "Status", label);
    let duration = cat(unsigned_text(d.duration_ms).as_str(), "ms");
    add_row(&mut out, "Duration", Span { tone: Tone::Plain, text: duration });
    add_row(&mut out, "Nodes", Span { tone: Tone::Plain, text: size_text(d.nodes_executed) });
    add_row(&mut out, "Started", Span { tone: Tone::Plain, text: d.start_time.to_rfc3339() });
    assert(rows(out@) =~= common_rows(record@.metadata));
    match d.ancestor_run_id {
        Some(n) => {
            add_row(&mut out, "Ancestor", Span { tone: Tone::Plain, text: show_uuid(n) });
        },
        None => {},
    }
    assert(rows(out@) =~= common_rows(record@.metadata) + ancestor_rows(record@.metadata));
    match &d.error_message {
        Some(e) => {
            add_row(&mut out, "Error", span(Tone::Plain, e.as_str()));
        },
        None => {},
    }
    assert(rows(out@) =~= common_rows(record@.metadata) + ancestor_rows(record@.metadata)
        + error_rows(record@.metadata));
    out
}

/// A heading in bold.
pub open spec fn heading(text: Seq<char>) -> Seq<Toned> {
    seq![(Tone::Bold, text)]
}

/// The lines below the table of a summary.
pub open spec fn summary_lines(r: RunRec) -> Seq<Seq<Toned>> {
    seq![Seq::<Toned>::empty(), heading("INPUTS"@)] + snapshot_lines(r.input_snapshot) + seq![
        Seq::<Toned>::empty(),
        heading("OUTPUTS"@),
    ] + snapshot_lines(r.output_snapshot) + seq![
        Seq::<Toned>::empty(),
        heading("CONFIG SNAPSHOT"@),
        seq![(Tone::Plain, trimmed(r.config_snapshot))],
    ]
}

/// Shows a run: a table, and the lines below it.
pub fn print_run_summary(record: &RunRecord) -> (r: (Vec<SummaryRow>, Vec<Vec<Span>>))
    ensures
        rows(r.0@) == common_rows(record@.metadata) + ancestor_rows(record@.metadata) + error_rows(
            record@.metadata,
        ),
        lines(r.1@) == summary_lines(record@),
{
    let mut out: Vec<Vec<Span>> = Vec::new();
    say(&mut out, blank_line());
    say(&mut out, line1(span(Tone::Bold, "INPUTS")));
    say_all(&mut out, print_snapshot(&record.input_snapshot));
    say(&mut out, blank_line());
    say(&mut out, line1(span(Tone::Bold, "OUTPUTS")));
    say_all(&mut out, print_snapshot(&record.output_snapshot));
    say(&mut out, blank_line());
    say(&mut out, line1(span(Tone::Bold, "CONFIG SNAPSHOT")));
    let config = trim(record.config_snapshot.as_str());
    say(&mut out, line1(Span { tone: Tone::Plain, text: config }));
    assert(lines(out@) =~= summary_lines(record@));
    (summary_rows(record), out)
}

/// The indented JSON text of the record of a run. A duration that 64 bits do not hold is put in the
/// place of zero.
pub open spec fn raw_text(r: RunRec) -> Seq<char> {
    if r.metadata.duration_ms <= u64::MAX {
        json_pretty_text(run_tree(r))
    } else {
        with_first(
            json_pretty_text(run_tree(lasting(r, 0))),
            "\"duration_ms\": 0"@,
            "\"duration_ms\": "@ + numeral(r.metadata.duration_ms as nat),
        )
    }
}

/// The indented JSON text of the record of a run.
pub fn raw_run(record: &RunRecord) -> (r: String)
    ensures
        r@ == raw_text(record@),
{
    if record.metadata.duration_ms <= u64::MAX as u128 {
        return json_show_pretty(&run_to_json(record));
    }
    let mut short = record.clone();
    short.metadata.duration_ms = 0;
    assert(short@ == lasting(record@, 0));
    let duration = cat("\"duration_ms\": ", unsigned_text(record.metadata.duration_ms).as_str());
    replace_first(
        json_show_pretty(&run_to_json(&short)).as_str(),
        "\"duration_ms\": 0",
        duration.as_str(),
    )
}

/// The keys of `keys` and of the entries, in ascending order.
pub open spec fn with_keys(keys: Seq<(Seq<char>, ())>, entries: Seq<(Seq<char>, Val)>) -> Seq<
    (Seq<char>, ()),
>
    decreases entries.len(),
{
    if entries.len() == 0 {
        keys
    } else {
        put(with_keys(keys, entries.drop_last()), entries.last().0, ())
    }
}

/// The keys of two maps, in ascending order.
pub open spec fn all_keys(left: Seq<(Seq<char>, Val)>, right: Seq<(Seq<char>, Val)>) -> Seq<
    (Seq<char>, ()),
> {
    with_keys(with_keys(Seq::empty(), left), right)
}

/// The line that says what became of a key.
pub open spec fn change_line(key: Seq<char>, left: Option<Val>, right: Option<Val>) -> Seq<Toned> {
    match (left, right) {
        (Some(l), Some(r)) => if val_eq(l, r) {
            seq![(Tone::Plain, "  "@), (Tone::Cyan, "="@), (Tone::Plain, " "@ + key)]
        } else {
            seq![
                (Tone::Plain, "  "@),
                (Tone::Cyan, "~"@),
                (Tone::Plain, " "@),
                (Tone::Cyan, key),
                (
                    Tone::Plain,
                    ": "@ + json_text(val_tree(l)) + " -> "@ + json_text(val_tree(r)),
                ),
            ]
        },
        (Some(l), None) => moved_line(Tone::Red, "-"@, key, l),
        (None, Some(r)) => moved_line(Tone::Green, "+"@, key, r),
        (None, None) => Seq::empty(),
    }
}

/// The line for a key that only one side has.
pub open spec fn moved_line(tone: Tone, sign: Seq<char>, key: Seq<char>, value: Val) -> Seq<Toned> {
    seq![
        (Tone::Plain, "  "@),
        (tone, sign),
        (Tone::Plain, " "@),
        (tone, key),
        (Tone::Plain, ": "@),
        (tone, json_text(val_tree(value))),
    ]
}

/// The lines that say what became of each key.
pub open spec fn change_lines(left: Seq<(Seq<char>, Val)>, right: Seq<(Seq<char>, Val)>) -> Seq<
    Seq<Toned>,
> {
    let keys = all_keys(left, right);
    Seq::new(
        keys.len(),
        |i: int| change_line(keys[i].0, lookup(left, keys[i].0), lookup(right, keys[i].0)),
    )
}

/// The lines that compare two snapshots.
pub open spec fn comparison(left: Val, right: Val) -> Seq<Seq<Toned>> {
    if val_eq(left, right) {
        seq![seq![(Tone::Plain, "  "@), (Tone::Cyan, "unchanged"@)]]
    } else {
        match (left, right) {
            (Val::Dict(l), Val::Dict(r)) => change_lines(l, r),
            _ => seq![
                seq![
                    (Tone::Plain, "  "@),
                    (Tone::Cyan, "~"@),
                    (
                        Tone::Plain,
                        " "@ + json_text(val_tree(left)) + " -> "@ + json_text(val_tree(right)),
                    ),
                ],
            ],
        }
    }
}

proof fn lemma_with_keys(keys: Seq<(Seq<char>, ())>, entries: Seq<(Seq<char>, Val)>, key: Seq<char>)
    requires
        ascending(keys),
    ensures
        ascending(with_keys(keys, entries)),
        lookup(with_keys(keys, entries), key) is Some <==> lookup(keys, key) is Some || exists|i: int|
            0 <= i < entries.len() && (#[trigger] entries[i]).0 == key,
    decreases entries.len(),
{
    if entries.len() > 0 {
        let front = entries.drop_last();
        let before = with_keys(keys, front);
        lemma_with_keys(keys, front, key);
        lemma_put_ascending(before, entries.last().0, ());
        lemma_put_lookup(before, entries.last().0, (), key);
        if exists|i: int| 0 <= i < front.len() && (#[trigger] front[i]).0 == key {
            let i = choose|i: int| 0 <= i < front.len() && (#[trigger] front[i]).0 == key;
            assert(entries[i].0 == key);
        }
        assert(entries[entries.len() - 1] == entries.last());
        assert forall|i: int| 0 <= i < entries.len() && (#[trigger] entries[i]).0
            == key implies lookup(with_keys(keys, entries), key) is Some by {
            if i < front.len() {
                assert(front[i].0 == key);
            }
        }
    }
}

/// A comparison speaks of exactly the keys of either map, in ascending order, of each once.
pub proof fn lemma_every_key_compared(
    left: Seq<(Seq<char>, Val)>,
    right: Seq<(Seq<char>, Val)>,
    key: Seq<char>,
)
    requires
        ascending(left),
        ascending(right),
    ensures
        ascending(all_keys(left, right)),
        lookup(all_keys(left, right), key) is Some <==> lookup(left, key) is Some || lookup(
            right,
            key,
        ) is Some,
        change_lines(left, right).len() == all_keys(left, right).len(),
{
    let none = Seq::<(Seq<char>, ())>::empty();
    lemma_with_keys(none, left, key);
    lemma_with_keys(with_keys(none, left), right, key);
    lemma_key_found(left, key);
    lemma_key_found(right, key);
}

proof fn lemma_key_found(s: Seq<(Seq<char>, Val)>, key: Seq<char>)
    requires
        ascending(s),
    ensures
        lookup(s, key) is Some <==> exists|i: int| 0 <= i < s.len() && (#[trigger] s[i]).0 == key,
{
    if exists|i: int| 0 <= i < s.len() && (#[trigger] s[i]).0 == key {
        let i = choose|i: int| 0 <= i < s.len() && (#[trigger] s[i]).0 == key;
        lemma_lookup_at(s, i);
    } else {
        lemma_lookup_absent(s, key);
    }
}

fn gather_keys(keys: &mut StrMap<()>, m: &StrMap<Value>)
    ensures
        final(keys).pairs() == with_keys(old(keys).pairs(), pair_vals(m.pairs())),
{
    let ghost entries = pair_vals(m.pairs());
    let n: usize = m.len();
    let mut i: usize = 0;
    while i < n
        invariant
            i <= n,
            n == m.pairs().len(),
            entries == pair_vals(m.pairs()),
            keys.pairs() == with_keys(old(keys).pairs(), entries.take(i as int)),
        decreases n - i,
    {
        let key = m.key_at(i).to_owned();
        keys.insert(key, ());
        assert(entries.take(i + 1).drop_last() =~= entries.take(i as int));
        i += 1;
    }
    assert(entries.take(i as int) =~= entries);
}

fn show_move(tone: Tone, sign: &str, key: &str, value: &Value) -> (r: Vec<Span>)
    ensures
        spans(r@) == moved_line(tone, sign@, key@, value@),
{
    let mut v = line3(span(Tone::Plain, "  "), span(tone, sign), span(Tone::Plain, " "));
    add_span(&mut v, span(tone, key));
    add_span(&mut v, span(Tone::Plain, ": "));
    add_span(&mut v, Span { tone, text: format_value(value) });
    assert(spans(v@) =~= moved_line(tone, sign@, key@, value@));
    v
}

fn show_pair(before: &Value, after: &Value) -> (r: String)
    ensures
        r@ == json_text(val_tree(before@)) + " -> "@ + json_text(val_tree(after@)),
{
    cat3(format_value(before).as_str(), " -> ", format_value(after).as_str())
}

fn show_change(key: &str, before: &Value, after: &Value) -> (r: Vec<Span>)
    ensures
        spans(r@) == change_line(key@, Some(before@), Some(after@)),
{
    if same_value(before, after) {
        let name = cat(" ", key);
        return line3(
            span(Tone::Plain, "  "),
            span(Tone::Cyan, "="),
            Span { tone: Tone::Plain, text: name },
        );
    }
    let mut v = line3(span(Tone::Plain, "  "), span(Tone::Cyan, "~"), span(Tone::Plain, " "));
    add_span(&mut v, span(Tone::Cyan, key));
    let text = cat(": ", show_pair(before, after).as_str());
    assert(text@ =~= ": "@ + json_text(val_tree(before@)) + " -> "@ + json_text(val_tree(after@)));
    add_span(&mut v, Span { tone: Tone::Plain, text });
    assert(spans(v@) =~= change_line(key@, Some(before@), Some(after@)));
    v
}

fn compare_entries(left: &StrMap<Value>, right: &StrMap<Value>) -> (r: Vec<Vec<Span>>)
    ensures
        lines(r@) == change_lines(dict_view(*left), dict_view(*right)),
{
    let ghost l = pair_vals(left.pairs());
    let ghost r = pair_vals(right.pairs());
    proof {
        lemma_dict_view(*left);
        lemma_dict_view(*right);
    }
    left.check_order();
    right.check_order();
    assert(ascending(l) && ascending(r)) by {
        crate::strmap::lemma_map_ascending(left.pairs(), |v: Value| v@);
        crate::strmap::lemma_map_ascending(right.pairs(), |v: Value| v@);
        assert(l =~= crate::strmap::map_values(left.pairs(), |v: Value| v@));
        assert(r =~= crate::strmap::map_values(right.pairs(), |v: Value| v@));
    }
    let mut keys: StrMap<()> = StrMap::new();
    gather_keys(&mut keys, left);
    gather_keys(&mut keys, right);
    let mut out: Vec<Vec<Span>> = Vec::new();
    let n: usize = keys.len();
    let mut i: usize = 0;
    while i < n
        invariant
            i <= n,
            keys.pairs() == all_keys(l, r),
            n == keys.pairs().len(),
            l == pair_vals(left.pairs()),
            r == pair_vals(right.pairs()),
            ascending(l),
            ascending(r),
            lines(out@).len() == i,
            forall|j: int|
                0 <= j < i ==> (#[trigger] lines(out@)[j]) == change_lines(l, r)[j],
        decreases n - i,
    {
        let key = keys.key_at(i);
        proof {
            lemma_every_key_compared(l, r, key@);
            lemma_lookup_at(all_keys(l, r), i as int);
            lemma_pair_vals_lookup(left.pairs(), key@);
            lemma_pair_vals_lookup(right.pairs(), key@);
        }
        match (left.get(key), right.get(key)) {
            (Some(a), Some(b)) => {
                say(&mut out, show_change(key, a, b));
            },
            (Some(a), None) => {
                say(&mut out, show_move(Tone::Red, "-", key, a));
            },
            (None, Some(b)) => {
                say(&mut out, show_move(Tone::Green, "+", key, b));
            },
            (None, None) => {
                assert(false);
            },
        }
        i += 1;
    }
    assert(lines(out@) =~= change_lines(l, r));
    out
}

/// Compares two snapshots, maps key by key.
pub fn compare_snapshot_maps(left: &Value, right: &Value) -> (r: Vec<Vec<Span>>)
    ensures
        lines(r@) == comparison(left@, right@),
{
    let mut out: Vec<Vec<Span>> = Vec::new();
    if same_value(left, right) {
        say(&mut out, line2(span(Tone::Plain, "  "), span(Tone::Cyan, "unchanged")));
        assert(lines(out@) =~= comparison(left@, right@));
        return out;
    }
    match (left, right) {
        (Value::Dict(l), Value::Dict(r)) => compare_entries(l, r),
        _ => {
            let text = cat(" ", show_pair(left, right).as_str());
            assert(text@ =~= " "@ + json_text(val_tree(left@)) + " -> "@ + json_text(
                val_tree(right@),
            ));
            say(
                &mut out,
                line3(
                    span(Tone::Plain, "  "),
                    span(Tone::Cyan, "~"),
                    Span { tone: Tone::Plain, text },
                ),
            );
            assert(lines(out@) =~= comparison(left@, right@));
            out
        },
    }
}

/// The line that compares how long two runs took.
pub open spec fn performance(left_ms: nat, right_ms: nat) -> Seq<Toned> {
    if left_ms == right_ms {
        seq![
            (Tone::Plain, "  "@),
            (Tone::Cyan, "= unchanged"@),
            (Tone::Plain, " "@ + numeral(left_ms) + "ms"@),
        ]
    } else if right_ms < left_ms {
        seq![
            (Tone::Plain, "  "@),
            (Tone::Green, "✔"@),
            (
                Tone::Plain,
                " "@ + numeral(left_ms) + " -> "@ + numeral(right_ms) + " ("@ + numeral(
                    (left_ms - right_ms) as nat,
                ) + "ms faster)"@,
            ),
        ]
    } else {
        seq![
            (Tone::Plain, "  "@),
            (Tone::Red, "✖"@),
            (
                Tone::Plain,
                " "@ + numeral(left_ms) + " -> "@ + numeral(right_ms) + " ("@ + numeral(
                    (right_ms - left_ms) as nat,
                ) + "ms slower)"@,
            ),
        ]
    }
}

fn show_step(left_ms: u128, right_ms: u128, delta: u128, end: &str) -> (r: String)
    ensures
        r@ == " "@ + numeral(left_ms as nat) + " -> "@ + numeral(right_ms as nat) + " ("@ + numeral(
            delta as nat,
        ) + end@,
{
    let mut r = cat3(" ", unsigned_text(left_ms).as_str(), " -> ");
    r.append(unsigned_text(right_ms).as_str());
    r.append(" (");
    r.append(unsigned_text(delta).as_str());
    r.append(end);
    r
}

/// Compares how long two runs took.
pub fn compare_performance(left: &RunRecord, right: &RunRecord) -> (r: Vec<Vec<Span>>)
    ensures
        lines(r@) == seq![
            performance(left.metadata.duration_ms as nat, right.metadata.duration_ms as nat),
        ],
{
    let left_ms: u128 = left.metadata.duration_ms;
    let right_ms: u128 = right.metadata.duration_ms;
    let line = if left_ms == right_ms {
        let text = cat3(" ", unsigned_text(left_ms).as_str(), "ms");
        line3(
            span(Tone::Plain, "  "),
            span(Tone::Cyan, "= unchanged"),
            Span { tone: Tone::Plain, text },
        )
    } else if right_ms < left_ms {
        let text = show_step(left_ms, right_ms, left_ms - right_ms, "ms faster)");
        line3(span(Tone::Plain, "  "), span(Tone::Green, "✔"), Span { tone: Tone::Plain, text })
    } else {
        let text = show_step(left_ms, right_ms, right_ms - left_ms, "ms slower)");
        line3(span(Tone::Plain, "  "), span(Tone::Red, "✖"), Span { tone: Tone::Plain, text })
    };
    let mut out: Vec<Vec<Span>> = Vec::new();
    say(&mut out, line);
    assert(lines(out@) =~= seq![
        performance(left.metadata.duration_ms as nat, right.metadata.duration_ms as nat),
    ]);
    out
}

/// A line in one tone that does not stand out.
pub open spec fn plain(text: Seq<char>) -> Seq<Toned> {
    seq![(Tone::Plain, text)]
}

/// The lines that a comparison of two runs begins with.
pub open spec fn diff_head(left: RunRec, right: RunRec) -> Seq<Seq<Toned>> {
    seq![
        seq![(Tone::BoldUnderline, "RUN DIFF"@)],
        plain(padded("Left ID:"@, 20) + " "@ + left.metadata.run_id),
        plain(padded("Right ID:"@, 20) + " "@ + right.metadata.run_id),
    ]
}

/// The lines that warn of different configurations.
pub open spec fn diff_warning(left: RunRec, right: RunRec) -> Seq<Seq<Toned>> {
    if left.config_snapshot == right.config_snapshot {
        Seq::empty()
    } else {
        seq![
            Seq::<Toned>::empty(),
            seq![
                (Tone::YellowBold, "⚠ Warning:"@),
                (Tone::Plain, " "@),
                (Tone::Yellow, "Pipeline configurations have diverged between these runs!"@),
            ],
        ]
    }
}

/// The lines that a comparison of runs with different configurations ends with.
pub open spec fn diff_tail(left: RunRec, right: RunRec) -> Seq<Seq<Toned>> {
    if left.config_snapshot == right.config_snapshot {
        Seq::empty()
    } else {
        seq![
            plain("CONFIG SNAPSHOT"@),
            plain("  Pipeline configuration content differs between runs."@),
        ]
    }
}

/// The lines that compare two runs.
pub open spec fn diff_lines(left: RunRec, right: RunRec) -> Seq<Seq<Toned>> {
    let blank = Seq::<Toned>::empty();
    diff_head(left, right) + diff_warning(left, right) + seq![blank, plain("INPUTS"@)] + comparison(
        left.input_snapshot,
        right.input_snapshot,
    ) + seq![blank, plain("OUTPUTS"@)] + comparison(
        left.output_snapshot,
        right.output_snapshot,
    ) + seq![
        blank,
        plain("PERFORMANCE"@),
        performance(left.metadata.duration_ms as nat, right.metadata.duration_ms as nat),
        blank,
    ] + diff_tail(left, right)
}

fn plain_span(text: &str) -> (r: Vec<Span>)
    ensures
        spans(r@) == plain(text@),
{
    line1(span(Tone::Plain, text))
}

/// Compares two runs: their inputs, their outputs, how long they took and their configurations.
pub fn generate_diff_report(left: &RunRecord, right: &RunRecord) -> (r: Vec<Vec<Span>>)
    ensures
        lines(r@) == diff_lines(left@, right@),
{
    let diverged = !same_text(left.config_snapshot.as_str(), right.config_snapshot.as_str());
    let mut out: Vec<Vec<Span>> = Vec::new();
    say(&mut out, line1(span(Tone::BoldUnderline, "RUN DIFF")));
    let left_id = cat3(pad("Left ID:", 20).as_str(), " ", left.metadata.run_id.as_str());
    say(&mut out, plain_span(left_id.as_str()));
    let right_id = cat3(pad("Right ID:", 20).as_str(), " ", right.metadata.run_id.as_str());
    say(&mut out, plain_span(right_id.as_str()));
    assert(lines(out@) =~= diff_head(left@, right@));
    if diverged {
        say(&mut out, blank_line());
        say(
            &mut out,
            line3(
                span(Tone::YellowBold, "⚠ Warning:"),
                span(Tone::Plain, " "),
                span(
                    Tone::Yellow,
                    "Pipeline configurations have diverged between these runs!",
                ),
            ),
        );
    }
    assert(lines(out@) =~= diff_head(left@, right@) + diff_warning(left@, right@));
    say(&mut out, blank_line());
    say(&mut out, plain_span("INPUTS"));
    say_all(&mut out, compare_snapshot_maps(&left.input_snapshot, &right.input_snapshot));
    say(&mut out, blank_line());
    say(&mut out, plain_span("OUTPUTS"));
    say_all(&mut out, compare_snapshot_maps(&left.output_snapshot, &right.output_snapshot));
    say(&mut out, blank_line());
    say(&mut out, plain_span("PERFORMANCE"));
    say_all(&mut out, compare_performance(left, right));
    say(&mut out, blank_line());
    let ghost body = lines(out@);
    if diverged {
        say(&mut out, plain_span("CONFIG SNAPSHOT"));
        say(&mut out, plain_span("  Pipeline configuration content differs between runs."));
    }
    assert(lines(out@) =~= body + diff_tail(left@, right@));
    assert(lines(out@) =~= diff_lines(left@, right@));
    out
}

proof fn lemma_line_push(line: Seq<Toned>, last: Toned)
    ensures
        line_text(line.push(last)) == line_text(line) + last.1,
{
    assert(line.push(last).drop_last() =~= line);
}

proof fn lemma_line_one(a: Toned)
    ensures
        line_text(seq![a]) == a.1,
{
    let none = Seq::<Toned>::empty();
    lemma_line_push(none, a);
    assert(none.push(a) =~= seq![a]);
    assert(line_text(none) + a.1 =~= a.1);
}

proof fn lemma_line_two(a: Toned, b: Toned)
    ensures
        line_text(seq![a, b]) == a.1 + b.1,
{
    lemma_line_one(a);
    lemma_line_push(seq![a], b);
    assert(seq![a].push(b) =~= seq![a, b]);
}

proof fn lemma_line_three(a: Toned, b: Toned, c: Toned)
    ensures
        line_text(seq![a, b, c]) == a.1 + b.1 + c.1,
{
    lemma_line_two(a, b);
    lemma_line_push(seq![a, b], c);
    assert(seq![a, b].push(c) =~= seq![a, b, c]);
}

proof fn lemma_line_five(a: Toned, b: Toned, c: Toned, d: Toned, e: Toned)
    ensures
        line_text(seq![a, b, c, d, e]) == a.1 + b.1 + c.1 + d.1 + e.1,
{
    lemma_line_three(a, b, c);
    lemma_line_push(seq![a, b, c], d);
    lemma_line_push(seq![a, b, c].push(d), e);
    assert(seq![a, b, c].push(d).push(e) =~= seq![a, b, c, d, e]);
}

proof fn lemma_line_six(a: Toned, b: Toned, c: Toned, d: Toned, e: Toned, f: Toned)
    ensures
        line_text(seq![a, b, c, d, e, f]) == a.1 + b.1 + c.1 + d.1 + e.1 + f.1,
{
    lemma_line_five(a, b, c, d, e);
    lemma_line_push(seq![a, b, c, d, e], f);
    assert(seq![a, b, c, d, e].push(f) =~= seq![a, b, c, d, e, f]);
}

/// The text in which a value is shown.
pub open spec fn shown(v: Val) -> Seq<char> {
    json_text(val_tree(v))
}

/// Whether a line tells what became of a key: that it stayed, from which value to which it changed,
/// or that it went or came with its value.
pub open spec fn tells(line: Seq<Toned>, key: Seq<char>, left: Option<Val>, right: Option<Val>) -> bool {
    match (left, right) {
        (Some(l), Some(r)) => if val_eq(l, r) {
            line_text(line) == "  = "@ + key
        } else {
            line_text(line) == "  ~ "@ + key + ": "@ + shown(l) + " -> "@ + shown(r)
        },
        (Some(l), None) => line_text(line) == "  - "@ + key + ": "@ + shown(l) && line[1].0
            == Tone::Red,
        (None, Some(r)) => line_text(line) == "  + "@ + key + ": "@ + shown(r) && line[1].0
            == Tone::Green,
        (None, None) => false,
    }
}

proof fn lemma_change_told(key: Seq<char>, left: Option<Val>, right: Option<Val>)
    requires
        left is Some || right is Some,
    ensures
        tells(change_line(key, left, right), key, left, right),
        line_text(change_line(key, left, right)).len() > 2,
        line_text(change_line(key, left, right))[2] != 'u',
{
    reveal_strlit("  ");
    reveal_strlit(" ");
    reveal_strlit("=");
    reveal_strlit("~");
    reveal_strlit("-");
    reveal_strlit("+");
    reveal_strlit("  = ");
    reveal_strlit("  ~ ");
    reveal_strlit("  - ");
    reveal_strlit("  + ");
    let line = change_line(key, left, right);
    match (left, right) {
        (Some(l), Some(r)) => {
            if val_eq(l, r) {
                lemma_line_three(
                    (Tone::Plain, "  "@),
                    (Tone::Cyan, "="@),
                    (Tone::Plain, " "@ + key),
                );
                assert(line_text(line) =~= "  = "@ + key);
            } else {
                let step = ": "@ + json_text(val_tree(l)) + " -> "@ + json_text(val_tree(r));
                lemma_line_five(
                    (Tone::Plain, "  "@),
                    (Tone::Cyan, "~"@),
                    (Tone::Plain, " "@),
                    (Tone::Cyan, key),
                    (Tone::Plain, step),
                );
                assert(line_text(line) =~= "  ~ "@ + key + ": "@ + shown(l) + " -> "@ + shown(r));
            }
        },
        (Some(l), None) => {
            lemma_line_six(
                (Tone::Plain, "  "@),
                (Tone::Red, "-"@),
                (Tone::Plain, " "@),
                (Tone::Red, key),
                (Tone::Plain, ": "@),
                (Tone::Red, json_text(val_tree(l))),
            );
            assert(line_text(line) =~= "  - "@ + key + ": "@ + shown(l));
        },
        (None, Some(r)) => {
            lemma_line_six(
                (Tone::Plain, "  "@),
                (Tone::Green, "+"@),
                (Tone::Plain, " "@),
                (Tone::Green, key),
                (Tone::Plain, ": "@),
                (Tone::Green, json_text(val_tree(r))),
            );
            assert(line_text(line) =~= "  + "@ + key + ": "@ + shown(r));
        },
        _ => {},
    }
}

/// Whether these are the keys of either map, in ascending order.
pub open spec fn keys_of_either(
    keys: Seq<Seq<char>>,
    left: Seq<(Seq<char>, Val)>,
    right: Seq<(Seq<char>, Val)>,
) -> bool {
    &&& forall|i: int, j: int|
        0 <= i < j < keys.len() ==> text_lt(#[trigger] keys[i], #[trigger] keys[j])
    &&& forall|k: Seq<char>| #[trigger]
        keys.contains(k) <==> lookup(left, k) is Some || lookup(right, k) is Some
}

/// Whether the lines tell of each key of either map what became of it, in ascending order.
pub open spec fn tells_all(
    section: Seq<Seq<Toned>>,
    left: Seq<(Seq<char>, Val)>,
    right: Seq<(Seq<char>, Val)>,
) -> bool {
    exists|keys: Seq<Seq<char>>| #[trigger]
        keys_of_either(keys, left, right) && keys.len() == section.len() && forall|i: int|
            0 <= i < keys.len() ==> tells(
                #[trigger] section[i],
                keys[i],
                lookup(left, keys[i]),
                lookup(right, keys[i]),
            )
}

/// Whether a section of a report compares two snapshots: it says that they are unchanged if and only
/// if they are equal; else it tells of every key of two maps, and of other snapshots the left one and
/// the right one.
pub open spec fn compares(section: Seq<Seq<Toned>>, left: Val, right: Val) -> bool {
    &&& section.len() == 1 && line_text(section[0]) == "  unchanged"@ <==> val_eq(left, right)
    &&& !val_eq(left, right) ==> match (left, right) {
        (Val::Dict(l), Val::Dict(r)) => tells_all(section, l, r),
        _ => section.len() == 1 && line_text(section[0]) == "  ~ "@ + shown(left) + " -> "@ + shown(
            right,
        ),
    }
}

/// Whether the entries of a map stand in key order.
pub open spec fn in_order(v: Val) -> bool {
    v matches Val::Dict(s) ==> ascending(s)
}

/// A comparison compares: the left snapshot with the right one, key by key if both are maps.
pub proof fn lemma_compared(left: Val, right: Val)
    requires
        in_order(left),
        in_order(right),
    ensures
        compares(comparison(left, right), left, right),
{
    reveal_strlit("  ");
    reveal_strlit(" ");
    reveal_strlit("~");
    reveal_strlit("unchanged");
    reveal_strlit("  unchanged");
    reveal_strlit("  ~ ");
    let section = comparison(left, right);
    if val_eq(left, right) {
        lemma_line_two((Tone::Plain, "  "@), (Tone::Cyan, "unchanged"@));
        assert(line_text(section[0]) =~= "  unchanged"@);
    } else {
        match (left, right) {
            (Val::Dict(l), Val::Dict(r)) => {
                let found = all_keys(l, r);
                let keys = Seq::new(found.len(), |i: int| found[i].0);
                lemma_every_key_compared(l, r, Seq::empty());
                assert forall|k: Seq<char>| #[trigger] keys.contains(k) <==> lookup(l, k) is Some
                    || lookup(r, k) is Some by {
                    lemma_every_key_compared(l, r, k);
                    if keys.contains(k) {
                        let i = choose|i: int| 0 <= i < keys.len() && keys[i] == k;
                        lemma_lookup_at(found, i);
                    }
                    if lookup(found, k) is Some {
                        let i = lemma_lookup_found(found, k);
                        assert(keys[i] == k);
                    }
                }
                assert forall|i: int, j: int| 0 <= i < j < keys.len() implies text_lt(
                    #[trigger] keys[i],
                    #[trigger] keys[j],
                ) by {
                    assert(text_lt(found[i].0, found[j].0));
                }
                assert(keys_of_either(keys, l, r));
                assert forall|i: int| 0 <= i < keys.len() implies tells(
                    #[trigger] section[i],
                    keys[i],
                    lookup(l, keys[i]),
                    lookup(r, keys[i]),
                ) && line_text(section[i])[2] != 'u' by {
                    assert(keys.contains(keys[i]));
                    lemma_change_told(keys[i], lookup(l, keys[i]), lookup(r, keys[i]));
                }
                assert(tells_all(section, l, r));
                if section.len() == 1 {
                    assert(line_text(section[0])[2] != 'u');
                    assert("  unchanged"@[2] == 'u');
                }
            },
            _ => {
                let step = " "@ + json_text(val_tree(left)) + " -> "@ + json_text(val_tree(right));
                lemma_line_three((Tone::Plain, "  "@), (Tone::Cyan, "~"@), (Tone::Plain, step));
                assert(line_text(section[0]) =~= "  ~ "@ + shown(left) + " -> "@ + shown(right));
                assert(line_text(section[0])[2] == '~');
                assert("  unchanged"@[2] == 'u');
            },
        }
    }
}

/// Whether a line compares two durations: it gives both, and by how much the right one is faster or
/// slower.
pub open spec fn compares_durations(line: Seq<Toned>, left_ms: nat, right_ms: nat) -> bool {
    &&& left_ms == right_ms ==> line_text(line) == "  = unchanged "@ + numeral(left_ms) + "ms"@
    &&& forall|gain: nat|
        gain > 0 && left_ms == right_ms + gain ==> line[1].0 == Tone::Green && line_text(line)
            == "  ✔ "@ + numeral(left_ms) + " -> "@ + numeral(right_ms) + " ("@ + #[trigger] numeral(
            gain,
        ) + "ms faster)"@
    &&& forall|loss: nat|
        loss > 0 && right_ms == left_ms + loss ==> line[1].0 == Tone::Red && line_text(line) == "  ✖ "@
            + numeral(left_ms) + " -> "@ + numeral(right_ms) + " ("@ + #[trigger] numeral(loss)
            + "ms slower)"@
}

/// Durations are compared: which was shorter, and by how much.
pub proof fn lemma_durations_compared(left_ms: nat, right_ms: nat)
    ensures
        compares_durations(performance(left_ms, right_ms), left_ms, right_ms),
{
    reveal_strlit("  ");
    reveal_strlit(" ");
    reveal_strlit("✔");
    reveal_strlit("✖");
    reveal_strlit("  ✔ ");
    reveal_strlit("  ✖ ");
    reveal_strlit("= unchanged");
    reveal_strlit("  = unchanged ");
    let line = performance(left_ms, right_ms);
    if left_ms == right_ms {
        lemma_line_three(
            (Tone::Plain, "  "@),
            (Tone::Cyan, "= unchanged"@),
            (Tone::Plain, " "@ + numeral(left_ms) + "ms"@),
        );
        assert(line_text(line) =~= "  = unchanged "@ + numeral(left_ms) + "ms"@);
    } else if right_ms < left_ms {
        let gain = (left_ms - right_ms) as nat;
        let step = " "@ + numeral(left_ms) + " -> "@ + numeral(right_ms) + " ("@ + numeral(gain)
            + "ms faster)"@;
        lemma_line_three((Tone::Plain, "  "@), (Tone::Green, "✔"@), (Tone::Plain, step));
        assert(line_text(line) =~= "  ✔ "@ + numeral(left_ms) + " -> "@ + numeral(right_ms) + " ("@
            + numeral(gain) + "ms faster)"@);
    } else {
        let loss = (right_ms - left_ms) as nat;
        let step = " "@ + numeral(left_ms) + " -> "@ + numeral(right_ms) + " ("@ + numeral(loss)
            + "ms slower)"@;
        lemma_line_three((Tone::Plain, "  "@), (Tone::Red, "✖"@), (Tone::Plain, step));
        assert(line_text(line) =~= "  ✖ "@ + numeral(left_ms) + " -> "@ + numeral(right_ms) + " ("@
            + numeral(loss) + "ms slower)"@);
    }
}

/// The report on two runs names both, and has in this order a section that compares their inputs, one
/// that compares their outputs, and a line that compares their durations. It warns that the
/// configurations differ if and only if they do. The result is where the three sections are headed.
pub proof fn lemma_runs_compared(left: RunRec, right: RunRec) -> (at: (int, int, int))
    requires
        in_order(left.input_snapshot),
        in_order(right.input_snapshot),
        in_order(left.output_snapshot),
        in_order(right.output_snapshot),
    ensures
        ({
            let d = diff_lines(left, right);
            let (inputs, outputs, speed) = at;
            &&& 3 <= inputs < outputs - 1 && outputs < speed - 1 && speed + 2 < d.len()
            &&& line_text(d[0]) == "RUN DIFF"@
            &&& line_text(d[1]) == "Left ID:             "@ + left.metadata.run_id
            &&& line_text(d[2]) == "Right ID:            "@ + right.metadata.run_id
            &&& line_text(d[inputs]) == "INPUTS"@
            &&& line_text(d[outputs]) == "OUTPUTS"@
            &&& line_text(d[speed]) == "PERFORMANCE"@
            &&& compares(
                d.subrange(inputs + 1, outputs - 1),
                left.input_snapshot,
                right.input_snapshot,
            )
            &&& compares(
                d.subrange(outputs + 1, speed - 1),
                left.output_snapshot,
                right.output_snapshot,
            )
            &&& compares_durations(
                d[speed + 1],
                left.metadata.duration_ms as nat,
                right.metadata.duration_ms as nat,
            )
            &&& left.config_snapshot == right.config_snapshot ==> inputs == 4 && d.len() == speed + 3
            &&& left.config_snapshot != right.config_snapshot ==> {
                &&& inputs == 6
                &&& line_text(d[4])
                    == "⚠ Warning: Pipeline configurations have diverged between these runs!"@
                &&& d.len() == speed + 5
                &&& line_text(d[speed + 3]) == "CONFIG SNAPSHOT"@
                &&& line_text(d[speed + 4])
                    == "  Pipeline configuration content differs between runs."@
            }
        }),
{
    let d = diff_lines(left, right);
    let a = comparison(left.input_snapshot, right.input_snapshot);
    let b = comparison(left.output_snapshot, right.output_snapshot);
    lemma_compared(left.input_snapshot, right.input_snapshot);
    lemma_compared(left.output_snapshot, right.output_snapshot);
    lemma_durations_compared(left.metadata.duration_ms as nat, right.metadata.duration_ms as nat);
    lemma_comparison_full(left.input_snapshot, right.input_snapshot);
    lemma_comparison_full(left.output_snapshot, right.output_snapshot);
    let inputs = 4int + diff_warning(left, right).len();
    let outputs = inputs + a.len() + 2;
    let speed = outputs + b.len() + 2;
    assert(d.subrange(inputs + 1, outputs - 1) =~= a);
    assert(d.subrange(outputs + 1, speed - 1) =~= b);
    lemma_line_one((Tone::BoldUnderline, "RUN DIFF"@));
    lemma_line_one((Tone::Plain, "INPUTS"@));
    lemma_line_one((Tone::Plain, "OUTPUTS"@));
    lemma_line_one((Tone::Plain, "PERFORMANCE"@));
    lemma_line_one((Tone::Plain, "CONFIG SNAPSHOT"@));
    lemma_line_one((Tone::Plain, "  Pipeline configuration content differs between runs."@));
    lemma_line_one((Tone::Plain, padded("Left ID:"@, 20) + " "@ + left.metadata.run_id));
    lemma_line_one((Tone::Plain, padded("Right ID:"@, 20) + " "@ + right.metadata.run_id));
    assert(padded("Left ID:"@, 20) + " "@ =~= "Left ID:             "@) by {
        lemma_headed("Left ID:"@, "Left ID:             "@);
    }
    assert(padded("Right ID:"@, 20) + " "@ =~= "Right ID:            "@) by {
        lemma_headed("Right ID:"@, "Right ID:            "@);
    }
    lemma_line_three(
        (Tone::YellowBold, "⚠ Warning:"@),
        (Tone::Plain, " "@),
        (Tone::Yellow, "Pipeline configurations have diverged between these runs!"@),
    );
    assert("⚠ Warning:"@ + " "@ + "Pipeline configurations have diverged between these runs!"@
        =~= "⚠ Warning: Pipeline configurations have diverged between these runs!"@) by {
        reveal_strlit("⚠ Warning:");
        reveal_strlit(" ");
        reveal_strlit("Pipeline configurations have diverged between these runs!");
        reveal_strlit("⚠ Warning: Pipeline configurations have diverged between these runs!");
    }
    (inputs, outputs, speed)
}

proof fn lemma_headed(label: Seq<char>, head: Seq<char>)
    requires
        label == "Left ID:"@ && head == "Left ID:             "@ || label == "Right ID:"@ && head
            == "Right ID:            "@,
    ensures
        padded(label, 20) + " "@ == head,
{
    reveal_strlit("Left ID:");
    reveal_strlit("Left ID:             ");
    reveal_strlit("Right ID:");
    reveal_strlit("Right ID:            ");
    reveal_strlit(" ");
    lemma_padded(label, 20);
    let p = padded(label, 20);
    assert forall|i: int| 0 <= i < label.len() implies p[i] == label[i] by {
        assert(p.take(label.len() as int)[i] == label[i]);
    }
    assert(p + " "@ =~= head);
}

/// A comparison has at least one line.
proof fn lemma_comparison_full(left: Val, right: Val)
    requires
        in_order(left),
        in_order(right),
    ensures
        comparison(left, right).len() > 0,
{
    if !val_eq(left, right) {
        match (left, right) {
            (Val::Dict(l), Val::Dict(r)) => {
                if change_lines(l, r).len() == 0 {
                    assert(l.len() == 0) by {
                        if l.len() > 0 {
                            lemma_lookup_at(l, 0);
                            lemma_every_key_compared(l, r, l[0].0);
                        }
                    }
                    assert(r.len() == 0) by {
                        if r.len() > 0 {
                            lemma_lookup_at(r, 0);
                            lemma_every_key_compared(l, r, r[0].0);
                        }
                    }
                    assert(val_eq(left, right));
                }
            },
            _ => {},
        }
    }
}

/// The table of a summary says of a run which it is, of which pipeline, how it ended, how long it took
/// and how many nodes ran, when it started, and which run it repeats and why it failed if that is
/// known. It says "Success" of a run that completed, "Failure" of one that failed, and of no others.
pub proof fn lemma_summary_table(d: MetaRec)
    ensures
        ({
            let t = common_rows(d) + ancestor_rows(d) + error_rows(d);
            &&& lookup(t, "Run ID"@) == Some((Tone::Plain, d.run_id))
            &&& lookup(t, "Pipeline"@) == Some((Tone::Plain, d.pipeline_name))
            &&& lookup(t, "Status"@) matches Some((tone, label)) && {
                &&& label == "Success"@ <==> d.status == RunStatus::Completed
                &&& label == "Failure"@ <==> d.status == RunStatus::Failed
                &&& label == "Started"@ <==> d.status == RunStatus::Started
                &&& tone == Tone::GreenBold <==> d.status == RunStatus::Completed
                &&& tone == Tone::RedBold <==> d.status == RunStatus::Failed
                &&& tone == Tone::YellowBold <==> d.status == RunStatus::Started
            }
            &&& lookup(t, "Duration"@) matches Some((tone, s)) && s.len() >= 2 && s.skip(s.len() - 2)
                == "ms"@ && digits_value(s.take(s.len() - 2)) == Some(d.duration_ms as nat)
            &&& lookup(t, "Nodes"@) matches Some((tone, s)) && digits_value(s) == Some(
                d.nodes_executed as nat,
            )
            &&& lookup(t, "Started"@) matches Some((tone, s)) && (time_offset_text(
                d.start_time.secs(),
                d.start_time.nanos(),
            ) matches Some(text) ==> s == text)
            &&& d.ancestor_run_id matches Some(n) ==> lookup(t, "Ancestor"@) == Some(
                (Tone::Plain, uuid_text(n)),
            )
            &&& d.ancestor_run_id is None ==> lookup(t, "Ancestor"@) is None
            &&& d.error_message matches Some(e) ==> lookup(t, "Error"@) == Some((Tone::Plain, e))
            &&& d.error_message is None ==> lookup(t, "Error"@) is None
        }),
{
    reveal_strlit("Run ID");
    reveal_strlit("Pipeline");
    reveal_strlit("Status");
    reveal_strlit("Duration");
    reveal_strlit("Nodes");
    reveal_strlit("Started");
    reveal_strlit("Ancestor");
    reveal_strlit("Error");
    reveal_strlit("Success");
    reveal_strlit("Failure");
    reveal_strlit("ms");
    let t = common_rows(d) + ancestor_rows(d) + error_rows(d);
    let c = common_rows(d);
    assert("Run ID"@[0] == 'R' && "Pipeline"@[0] == 'P' && "Status"@[0] == 'S' && "Status"@.len() == 6
        && "Duration"@[0] == 'D' && "Nodes"@[0] == 'N' && "Started"@[0] == 'S' && "Started"@.len()
        == 7 && "Ancestor"@[0] == 'A' && "Error"@[0] == 'E');
    assert("Success"@[1] == 'u' && "Started"@[1] == 't' && "Failure"@[0] == 'F' && "Success"@[0]
        == 'S');
    assert(forall|i: int| 0 <= i < 6 ==> t[i] == c[i]);
    crate::record::lemma_lookup_first(t, 0);
    crate::record::lemma_lookup_first(t, 1);
    crate::record::lemma_lookup_first(t, 2);
    crate::record::lemma_lookup_first(t, 3);
    crate::record::lemma_lookup_first(t, 4);
    crate::record::lemma_lookup_first(t, 5);
    let ms = numeral(d.duration_ms as nat) + "ms"@;
    assert(ms.take(ms.len() - 2) =~= numeral(d.duration_ms as nat));
    assert(ms.skip(ms.len() - 2) =~= "ms"@);
    lemma_numeral_read(d.duration_ms as nat);
    lemma_numeral_read(d.nodes_executed as nat);
    if d.ancestor_run_id is Some {
        assert(t[6] == ancestor_rows(d)[0]);
        crate::record::lemma_lookup_first(t, 6);
    } else {
        if d.error_message is Some {
            assert(t[6] == error_rows(d)[0]);
        }
        lemma_lookup_absent(t, "Ancestor"@);
    }
    if d.error_message is Some {
        let k = t.len() - 1;
        assert(t[k] == error_rows(d)[0]);
        crate::record::lemma_lookup_first(t, k);
    } else {
        lemma_lookup_absent(t, "Error"@);
    }
}

/// A snapshot is shown in full: of a map each key and each value, in one line, and of a list each item;
/// one that holds nothing is said to hold nothing; any other value is shown as it is.
pub proof fn lemma_snapshot_shown(v: Val, i: int)
    ensures
        v matches Val::Dict(s) ==> (0 <= i < s.len() ==> snapshot_lines(v).len() == s.len()
            && line_text(snapshot_lines(v)[i]).take(2int + s[i].0.len()) == "  "@ + s[i].0 && occurs(
            line_text(snapshot_lines(v)[i]),
            shown(s[i].1),
        )),
        v matches Val::Object(s) ==> snapshot_lines(v) == snapshot_lines(Val::Dict(s)),
        v matches Val::List(s) ==> (0 <= i < s.len() ==> snapshot_lines(v).len() == s.len()
            && line_text(snapshot_lines(v)[i]) == "  - "@ + shown(s[i])),
        v matches Val::Table(s) ==> snapshot_lines(v) == snapshot_lines(Val::List(s)),
        (v matches Val::Dict(s) && s.len() == 0) || (v matches Val::List(s) && s.len() == 0)
            ==> snapshot_lines(v).len() == 1 && line_text(snapshot_lines(v)[0]) == "  <none>"@,
        !(v is Dict) && !(v is Object) && !(v is List) && !(v is Table) ==> snapshot_lines(v).len() == 1
            && line_text(snapshot_lines(v)[0]) == "  "@ + shown(v),
{
    reveal_strlit("  ");
    reveal_strlit("<none>");
    reveal_strlit("  <none>");
    lemma_line_two((Tone::Plain, "  "@), (Tone::Dimmed, "<none>"@));
    assert("  "@ + "<none>"@ =~= "  <none>"@);
    lemma_line_one((Tone::Plain, "  "@ + shown(v)));
    match v {
        Val::Dict(s) => {
            if 0 <= i < s.len() {
                let key = s[i].0;
                let text = "  "@ + padded(key, 20) + " "@ + shown(s[i].1);
                lemma_line_one((Tone::Plain, text));
                lemma_padded(key, 20);
                assert(text.take(2int + key.len()) =~= "  "@ + key) by {
                    assert forall|j: int| 0 <= j < key.len() implies padded(key, 20)[j] == key[j] by {
                        assert(padded(key, 20).take(key.len() as int)[j] == key[j]);
                    }
                }
                let at = text.len() - shown(s[i].1).len();
                assert(text.subrange(at, at + shown(s[i].1).len()) =~= shown(s[i].1));
                assert(occurs_at(text, shown(s[i].1), at));
            }
        },
        Val::List(s) => {
            if 0 <= i < s.len() {
                lemma_line_one((Tone::Plain, "  - "@ + shown(s[i])));
            }
        },
        _ => {},
    }
}

/// Below the table a summary has in this order the inputs of the run, its outputs and its
/// configuration. The result is where the outputs are headed.
pub proof fn lemma_summary_sections(r: RunRec) -> (outputs: int)
    ensures
        ({
            let s = summary_lines(r);
            &&& 2 < outputs < s.len() - 3
            &&& line_text(s[1]) == "INPUTS"@
            &&& s.subrange(2, outputs - 1) == snapshot_lines(r.input_snapshot)
            &&& line_text(s[outputs]) == "OUTPUTS"@
            &&& s.subrange(outputs + 1, s.len() - 3) == snapshot_lines(r.output_snapshot)
            &&& line_text(s[s.len() - 2]) == "CONFIG SNAPSHOT"@
            &&& line_text(s.last()) == trimmed(r.config_snapshot)
        }),
{
    let s = summary_lines(r);
    let outputs = 3int + snapshot_lines(r.input_snapshot).len();
    lemma_line_one((Tone::Bold, "INPUTS"@));
    lemma_line_one((Tone::Bold, "OUTPUTS"@));
    lemma_line_one((Tone::Bold, "CONFIG SNAPSHOT"@));
    lemma_line_one((Tone::Plain, trimmed(r.config_snapshot)));
    assert(s.subrange(2, outputs - 1) =~= snapshot_lines(r.input_snapshot));
    assert(s.subrange(outputs + 1, s.len() - 3) =~= snapshot_lines(r.output_snapshot));
    assert(snapshot_lines(r.output_snapshot).len() > 0);
    outputs
}

/// A run is shown raw as its document; where its duration takes more than 64 bits, the document is that
/// of the run with no duration, in which the first `0` behind the name of the duration is the duration.
pub proof fn lemma_raw_shown(r: RunRec, i: int)
    ensures
        r.metadata.duration_ms <= u64::MAX ==> raw_text(r) == json_pretty_text(run_tree(r)),
        r.metadata.duration_ms > u64::MAX ==> ({
            let s = json_pretty_text(run_tree(lasting(r, 0)));
            occurs_at(s, "\"duration_ms\": 0"@, i) && (forall|j: int|
                0 <= j < i ==> !#[trigger] occurs_at(s, "\"duration_ms\": 0"@, j)) ==> raw_text(r) == s.take(
                i,
            ) + ("\"duration_ms\": "@ + numeral(r.metadata.duration_ms as nat)) + s.skip(
                i + "\"duration_ms\": 0"@.len(),
            )
        }),
{
    let s = json_pretty_text(run_tree(lasting(r, 0)));
    let part = "\"duration_ms\": 0"@;
    if occurs_at(s, part, i) && (forall|j: int| 0 <= j < i ==> !#[trigger] occurs_at(s, part, j)) {
        lemma_first_replaced(
            s,
            part,
            "\"duration_ms\": "@ + numeral(r.metadata.duration_ms as nat),
            i,
        );
    }
}

/// A report is its lines, one behind the other with a line break between them.
pub proof fn lemma_report_shown(v: Seq<Seq<Toned>>, line: Seq<Toned>)
    ensures
        report_text(seq![line]) == line_text(line),
        v.len() > 0 ==> report_text(v.push(line)) == report_text(v) + seq!['\n'] + line_text(line),
{
    reveal_strlit("\n");
    assert("\n"@ =~= seq!['\n']);
    let a = Seq::new(v.len(), |i: int| line_text(v[i]));
    let b = Seq::new(v.push(line).len(), |i: int| line_text(v.push(line)[i]));
    assert(b =~= a.push(line_text(line)));
    assert(b.drop_last() =~= a);
    let one = Seq::new(seq![line].len(), |i: int| line_text(seq![line][i]));
    assert(one =~= seq![line_text(line)]);
}

} // verus!

//! What is written: JSON and log lines.
use crate::corpus::types::{
    kind_name, PrepareErrorSample, PrepareReport, PrepareStats, SampleView, WeightedRecord,
};
use crate::corpus::weights::{weight_list, weight_pairs};
use crate::index::builder::BuildReport;
use crate::index::shard::control;
use crate::ordered::views;
use crate::search::types::{HitView, SearchReport, SearchStopReason};
use crate::text::{
    chars_of, decimal, decimal_of, hex_char, hex_digit, hexadecimal, hexadecimal_of,
    lemma_code_point,
};
use std::collections::BTreeMap;
use vstd::prelude::*;
use vstd::string::*;

verus! {

/// How many characters of a text a log line shows.
pub const LOG_LIMIT: usize = 160;

/// A character as JSON writes it in a text.
pub open spec fn json_char(c: char) -> Seq<char> {
    if c == '"' {
        seq!['\\', '"']
    } else if c == '\\' {
        seq!['\\', '\\']
    } else if c == '\n' {
        seq!['\\', 'n']
    } else if c == '\r' {
        seq!['\\', 'r']
    } else if c == '\t' {
        seq!['\\', 't']
    } else if (c as u32) < 0x20 {
        seq!['\\', 'u', '0', '0', hex_char(c as int / 16), hex_char(c as int % 16)]
    } else {
        seq![c]
    }
}

/// The characters of a text as JSON writes them.
pub open spec fn json_chars(s: Seq<char>) -> Seq<char>
    decreases s.len(),
{
    if s.len() == 0 {
        Seq::empty()
    } else {
        json_chars(s.drop_last()) + json_char(s.last())
    }
}

/// A text as JSON writes it.
pub open spec fn json_quoted(s: Seq<char>) -> Seq<char> {
    seq!['"'] + json_chars(s) + seq!['"']
}

/// A text as JSON writes it.
pub fn json_string(value: &str) -> (r: String)
    ensures
        r@ == json_quoted(value@),
{
    let chars = chars_of(value);
    let mut out = String::new();
    out.push('"');
    let mut i: usize = 0;
    assert(chars@.take(0) =~= Seq::empty());
    assert(out@ =~= seq!['"'] + json_chars(chars@.take(0)));
    while i < chars.len()
        invariant
            i <= chars@.len(),
            out@ == seq!['"'] + json_chars(chars@.take(i as int)),
        decreases chars.len() - i,
    {
        let ghost before = out@;
        proof {
            assert(chars@.take(i + 1).drop_last() =~= chars@.take(i as int));
        }
        let c = chars[i];
        if c == '"' || c == '\\' {
            out.push('\\');
            out.push(c);
        } else if c == '\n' {
            out.push('\\');
            out.push('n');
        } else if c == '\r' {
            out.push('\\');
            out.push('r');
        } else if c == '\t' {
            out.push('\\');
            out.push('t');
        } else if (c as u32) < 0x20 {
            let x: u32 = c as u32;
            out.push('\\');
            out.push('u');
            out.push('0');
            out.push('0');
            out.push(hex_digit(x / 16));
            out.push(hex_digit(x % 16));
        } else {
            out.push(c);
        }
        proof {
            lemma_code_point(c);
            assert(out@ =~= before + json_char(c));
            assert(before + json_char(c) =~= seq!['"'] + json_chars(chars@.take(i + 1)));
        }
        i += 1;
    }
    out.push('"');
    proof {
        assert(chars@.take(i as int) =~= chars@);
        assert(out@ =~= json_quoted(value@));
    }
    out
}

/// A character as a log line shows it.
pub open spec fn log_char(c: char) -> Seq<char> {
    if c == '\n' {
        seq!['\\', 'n']
    } else if c == '\r' {
        seq!['\\', 'r']
    } else if c == '\t' {
        seq!['\\', 't']
    } else if control(c) {
        seq!['\\', 'u', '{'] + hexadecimal(c as nat) + seq!['}']
    } else {
        seq![c]
    }
}

/// The characters of a text as a log line shows them.
pub open spec fn log_chars(s: Seq<char>) -> Seq<char>
    decreases s.len(),
{
    if s.len() == 0 {
        Seq::empty()
    } else {
        log_chars(s.drop_last()) + log_char(s.last())
    }
}

/// A text as a log line shows it.
pub open spec fn logged(s: Seq<char>) -> Seq<char> {
    if s.len() > LOG_LIMIT {
        log_chars(s.take(LOG_LIMIT as int)).push('…')
    } else {
        log_chars(s)
    }
}

/// A text as a log line shows it.
pub fn log_text(value: &str) -> (r: String)
    ensures
        r@ == logged(value@),
{
    let chars = chars_of(value);
    let n: usize = if chars.len() > LOG_LIMIT {
        LOG_LIMIT
    } else {
        chars.len()
    };
    let mut out = String::new();
    let mut i: usize = 0;
    assert(chars@.take(0) =~= Seq::empty());
    assert(out@ =~= log_chars(chars@.take(0)));
    while i < n
        invariant
            i <= n <= chars@.len(),
            out@ == log_chars(chars@.take(i as int)),
        decreases n - i,
    {
        let ghost before = out@;
        proof {
            assert(chars@.take(i + 1).drop_last() =~= chars@.take(i as int));
        }
        let c = chars[i];
        let x: u32 = c as u32;
        if c == '\n' {
            out.push('\\');
            out.push('n');
        } else if c == '\r' {
            out.push('\\');
            out.push('r');
        } else if c == '\t' {
            out.push('\\');
            out.push('t');
        } else if x < 0x20 || (0x7F <= x && x <= 0x9F) {
            out.push('\\');
            out.push('u');
            out.push('{');
            out.append(hexadecimal_of(x).as_str());
            out.push('}');
        } else {
            out.push(c);
        }
        proof {
            lemma_code_point(c);
            assert(out@ =~= before + log_char(c));
        }
        i += 1;
    }
    if chars.len() > LOG_LIMIT {
        out.push('…');
    } else {
        assert(chars@.take(n as int) =~= chars@);
    }
    out
}

/// A result as JSON.
pub open spec fn hit_json(h: HitView) -> Seq<char> {
    "{\"text\":"@ + json_quoted(h.text) + ",\"score\":"@ + decimal(h.score as nat) + "}"@
}

/// The first `n` results as JSON.
pub open spec fn hits_json(hits: Seq<HitView>, n: nat) -> Seq<char>
    decreases n,
{
    if n == 0 || n > hits.len() {
        Seq::empty()
    } else if n == 1 {
        hit_json(hits[0])
    } else {
        hits_json(hits, (n - 1) as nat) + ","@ + hit_json(hits[n - 1])
    }
}

/// The kind of an event as JSON.
pub open spec fn event_json(event: Option<Seq<char>>) -> Seq<char> {
    match event {
        Some(name) => "\"type\":"@ + json_quoted(name) + ","@,
        None => Seq::empty(),
    }
}

/// Why a search ended early, as JSON.
pub open spec fn stop_json(reason: Option<SearchStopReason>) -> Seq<char> {
    match reason {
        Some(SearchStopReason::NodeLimit) => json_quoted("node_limit"@),
        Some(SearchStopReason::StateLimit) => json_quoted("state_limit"@),
        None => "null"@,
    }
}

/// A truth value as JSON.
pub open spec fn bool_json(b: bool) -> Seq<char> {
    if b {
        "true"@
    } else {
        "false"@
    }
}

/// What a search has found, as JSON.
pub open spec fn report_json(event: Option<Seq<char>>, report: SearchReport) -> Seq<char> {
    let hits = views(report.results@);
    "{"@ + event_json(event) + "\"results\":["@ + hits_json(hits, hits.len()) + "],\"visited\":"@
        + decimal(report.visited as nat) + ",\"states\":"@ + decimal(
        report.derivative_states as nat,
    ) + ",\"truncated\":"@ + bool_json(report.truncated) + ",\"stop_reason\":"@ + stop_json(
        report.stop_reason,
    ) + "}"@
}

fn bool_text(b: bool) -> (r: &'static str)
    ensures
        r@ == bool_json(b),
{
    if b {
        "true"
    } else {
        "false"
    }
}

fn search_report_json_with_type(event: Option<&str>, report: &SearchReport) -> (r: String)
    ensures
        r@ == report_json(
            match event {
                Some(name) => Some(name@),
                None => None,
            },
            *report,
        ),
{
    let ghost hits = views(report.results@);
    let mut out = "{".to_owned();
    if let Some(name) = event {
        out.append("\"type\":");
        out.append(json_string(name).as_str());
        out.append(",");
    }
    out.append("\"results\":[");
    let ghost start = out@;
    let mut i: usize = 0;
    assert(start + hits_json(hits, 0) =~= start);
    while i < report.results.len()
        invariant
            i <= report.results@.len(),
            hits == views(report.results@),
            out@ == start + hits_json(hits, i as nat),
        decreases report.results.len() - i,
    {
        let ghost before = out@;
        let hit = &report.results[i];
        assert(hits[i as int] == hit@);
        if i > 0 {
            out.append(",");
        }
        out.append("{\"text\":");
        out.append(json_string(hit.text.as_str()).as_str());
        out.append(",\"score\":");
        out.append(decimal_of(hit.score).as_str());
        out.append("}");
        proof {
            if i > 0 {
                assert(out@ =~= before + (","@ + hit_json(hit@)));
                assert(out@ =~= start + hits_json(hits, (i + 1) as nat));
            } else {
                assert(out@ =~= start + hits_json(hits, 1));
            }
        }
        i += 1;
    }
    out.append("],\"visited\":");
    out.append(decimal_of(report.visited).as_str());
    out.append(",\"states\":");
    out.append(decimal_of(report.derivative_states as u64).as_str());
    out.append(",\"truncated\":");
    out.append(bool_text(report.truncated));
    out.append(",\"stop_reason\":");
    match report.stop_reason {
        Some(reason) => {
            out.append(json_string(reason.code()).as_str());
        },
        None => {
            out.append("null");
        },
    }
    out.append("}");
    proof {
        assert(out@ =~= report_json(
            match event {
                Some(name) => Some(name@),
                None => None,
            },
            *report,
        ));
    }
    out
}

/// What a search has found, as JSON.
pub fn search_report_json(report: &SearchReport) -> (r: String)
    ensures
        r@ == report_json(None, *report),
{
    search_report_json_with_type(None, report)
}

/// An event of a search, as JSON.
pub fn search_event_json(event: &str, report: &SearchReport) -> (r: String)
    ensures
        r@ == report_json(Some(event@), *report),
{
    search_report_json_with_type(Some(event), report)
}

/// A message of an error, as JSON.
pub open spec fn error_json(message: Seq<char>) -> Seq<char> {
    "{\"error\":"@ + json_quoted(message) + "}"@
}

/// A message of an error, as JSON.
pub fn error_message_json(message: &str) -> (r: String)
    ensures
        r@ == error_json(message@),
{
    let mut out = "{\"error\":".to_owned();
    out.append(json_string(message).as_str());
    out.append("}");
    out
}

/// An error as a line of a stream of events.
pub open spec fn error_event(message: Seq<char>) -> Seq<char> {
    "{\"type\":\"error\",\"error\":"@ + json_quoted(message) + "}\n"@
}

/// An error as a line of a stream of events.
pub fn error_event_line(message: &str) -> (r: String)
    ensures
        r@ == error_event(message@),
{
    let mut out = "{\"type\":\"error\",\"error\":".to_owned();
    out.append(json_string(message).as_str());
    out.append("}\n");
    out
}

/// A place in the queue as a line of a stream of events.
pub open spec fn queued_event(ahead: nat) -> Seq<char> {
    "{\"type\":\"queued\",\"ahead\":"@ + decimal(ahead) + "}\n"@
}

/// A place in the queue as a line of a stream of events.
pub fn queued_event_line(ahead: usize) -> (r: String)
    ensures
        r@ == queued_event(ahead as nat),
{
    let mut out = "{\"type\":\"queued\",\"ahead\":".to_owned();
    out.append(decimal_of(ahead as u64).as_str());
    out.append("}\n");
    out
}

/// A report of a search as a line of a stream of events.
pub fn search_event_line(event: &str, report: &SearchReport) -> (r: String)
    ensures
        r@ == report_json(Some(event@), *report).push('\n'),
{
    let mut out = search_event_json(event, report);
    out.push('\n');
    out
}

/// The first `n` weights, each with its count, as JSON.
pub open spec fn weights_json(weights: Seq<(u64, u64)>, n: nat) -> Seq<char>
    decreases n,
{
    if n == 0 || n > weights.len() {
        Seq::empty()
    } else {
        let one = json_quoted(decimal(weights[n - 1].0 as nat)) + ":"@ + decimal(
            weights[n - 1].1 as nat,
        );
        if n == 1 {
            one
        } else {
            weights_json(weights, (n - 1) as nat) + ","@ + one
        }
    }
}

/// A record as JSON.
pub open spec fn record_json(record: (Seq<char>, u64)) -> Seq<char> {
    "{\"weight\":"@ + decimal(record.1 as nat) + ",\"text\":"@ + json_quoted(record.0) + "}"@
}

/// The first `n` records as JSON.
pub open spec fn records_json(records: Seq<(Seq<char>, u64)>, n: nat) -> Seq<char>
    decreases n,
{
    if n == 0 || n > records.len() {
        Seq::empty()
    } else if n == 1 {
        record_json(records[0])
    } else {
        records_json(records, (n - 1) as nat) + ","@ + record_json(records[n - 1])
    }
}

/// A sample of a fault as JSON.
pub open spec fn sample_json(sample: SampleView) -> Seq<char> {
    "{\"source\":"@ + json_quoted(sample.source) + ",\"line\":"@ + decimal(sample.line as nat)
        + ",\"message\":"@ + json_quoted(sample.message) + ",\"preview\":"@ + json_quoted(
        sample.preview,
    ) + "}"@
}

/// The first `n` samples of faults as JSON.
pub open spec fn samples_json(samples: Seq<SampleView>, n: nat) -> Seq<char>
    decreases n,
{
    if n == 0 || n > samples.len() {
        Seq::empty()
    } else if n == 1 {
        sample_json(samples[0])
    } else {
        samples_json(samples, (n - 1) as nat) + ","@ + sample_json(samples[n - 1])
    }
}

/// A name with a number, as JSON writes a field.
pub open spec fn count_json(name: Seq<char>, n: u64) -> Seq<char> {
    "\""@ + name + "\":"@ + decimal(n as nat)
}

/// The counts of a preparation as JSON.
pub open spec fn stats_json(stats: PrepareStats) -> Seq<char> {
    count_json("files_seen"@, stats.files_seen) + ","@ + count_json(
        "bytes_read"@,
        stats.bytes_read,
    ) + ","@ + count_json("physical_lines"@, stats.physical_lines) + ","@ + count_json(
        "logical_records"@,
        stats.logical_records,
    ) + ","@ + count_json("selected_fields"@, stats.selected_fields) + ","@ + count_json(
        "fields_without_han"@,
        stats.fields_without_han,
    ) + ","@ + count_json("emitted_records"@, stats.emitted_records) + ","@ + count_json(
        "emitted_han_chars"@,
        stats.emitted_han_chars,
    ) + ","@ + count_json("emitted_weight"@, stats.emitted_weight) + ","@ + count_json(
        "skipped_records"@,
        stats.skipped_records,
    ) + ","@ + count_json("parse_errors"@, stats.parse_errors) + ","@ + count_json(
        "invalid_utf8_lines"@,
        stats.invalid_utf8_lines,
    )
}

/// A report on a source as JSON.
pub open spec fn prepared_json(report: PrepareReport) -> Seq<char> {
    let weights = weight_list(report.records_by_weight@);
    let records = views(report.record_samples@);
    let samples = views(report.error_samples@);
    "{\n  \"kind\":"@ + json_quoted(kind_name(report.kind)) + ",\n  \"stats\":{"@ + stats_json(
        report.stats,
    ) + "},\n  \"records_by_weight\":{"@ + weights_json(weights, weights.len())
        + "},\n  \"record_samples\":["@ + records_json(records, records.len())
        + "],\n  \"error_samples\":["@ + samples_json(samples, samples.len()) + "]\n}\n"@
}

fn append_count(out: &mut String, name: &str, n: u64)
    ensures
        final(out)@ == old(out)@ + count_json(name@, n),
{
    let ghost before = out@;
    out.append("\"");
    out.append(name);
    out.append("\":");
    out.append(decimal_of(n).as_str());
    proof {
        assert(out@ =~= before + count_json(name@, n));
    }
}

#[verifier::rlimit(80)]
fn append_stats(out: &mut String, stats: PrepareStats)
    ensures
        final(out)@ == old(out)@ + stats_json(stats),
{
    let ghost before = out@;
    append_count(out, "files_seen", stats.files_seen);
    out.append(",");
    append_count(out, "bytes_read", stats.bytes_read);
    out.append(",");
    append_count(out, "physical_lines", stats.physical_lines);
    out.append(",");
    append_count(out, "logical_records", stats.logical_records);
    out.append(",");
    append_count(out, "selected_fields", stats.selected_fields);
    out.append(",");
    append_count(out, "fields_without_han", stats.fields_without_han);
    out.append(",");
    append_count(out, "emitted_records", stats.emitted_records);
    out.append(",");
    append_count(out, "emitted_han_chars", stats.emitted_han_chars);
    out.append(",");
    append_count(out, "emitted_weight", stats.emitted_weight);
    out.append(",");
    append_count(out, "skipped_records", stats.skipped_records);
    out.append(",");
    append_count(out, "parse_errors", stats.parse_errors);
    out.append(",");
    append_count(out, "invalid_utf8_lines", stats.invalid_utf8_lines);
    proof {
        assert(out@ =~= before + stats_json(stats));
    }
}

fn append_weights(out: &mut String, table: &BTreeMap<u64, u64>)
    ensures
        final(out)@ == old(out)@ + weights_json(
            weight_list(table@),
            weight_list(table@).len(),
        ),
{
    let weights = weight_pairs(table);
    let ghost start = out@;
    let mut i: usize = 0;
    assert(start + weights_json(weights@, 0) =~= start);
    while i < weights.len()
        invariant
            i <= weights@.len(),
            out@ == start + weights_json(weights@, i as nat),
        decreases weights.len() - i,
    {
        let ghost before = out@;
        if i > 0 {
            out.append(",");
        }
        let number = decimal_of(weights[i].0);
        out.append(json_string(number.as_str()).as_str());
        out.append(":");
        out.append(decimal_of(weights[i].1).as_str());
        proof {
            assert(out@ =~= start + weights_json(weights@, (i + 1) as nat));
        }
        i += 1;
    }
}

fn append_records(out: &mut String, records: &Vec<WeightedRecord>)
    ensures
        final(out)@ == old(out)@ + records_json(views(records@), records@.len()),
{
    let ghost start = out@;
    let ghost all = views(records@);
    let mut i: usize = 0;
    assert(start + records_json(all, 0) =~= start);
    while i < records.len()
        invariant
            i <= records@.len(),
            all == views(records@),
            out@ == start + records_json(all, i as nat),
        decreases records.len() - i,
    {
        assert(all[i as int] == records@[i as int]@);
        if i > 0 {
            out.append(",");
        }
        out.append("{\"weight\":");
        out.append(decimal_of(records[i].weight).as_str());
        out.append(",\"text\":");
        out.append(json_string(records[i].text.as_str()).as_str());
        out.append("}");
        proof {
            assert(out@ =~= start + records_json(all, (i + 1) as nat));
        }
        i += 1;
    }
}

fn append_samples(out: &mut String, samples: &Vec<PrepareErrorSample>)
    ensures
        final(out)@ == old(out)@ + samples_json(views(samples@), samples@.len()),
{
    let ghost start = out@;
    let ghost all = views(samples@);
    let mut i: usize = 0;
    assert(start + samples_json(all, 0) =~= start);
    while i < samples.len()
        invariant
            i <= samples@.len(),
            all == views(samples@),
            out@ == start + samples_json(all, i as nat),
        decreases samples.len() - i,
    {
        assert(all[i as int] == samples@[i as int]@);
        if i > 0 {
            out.append(",");
        }
        out.append("{\"source\":");
        out.append(json_string(samples[i].source.as_str()).as_str());
        out.append(",\"line\":");
        out.append(decimal_of(samples[i].line).as_str());
        out.append(",\"message\":");
        out.append(json_string(samples[i].message.as_str()).as_str());
        out.append(",\"preview\":");
        out.append(json_string(samples[i].preview.as_str()).as_str());
        out.append("}");
        proof {
            assert(out@ =~= start + samples_json(all, (i + 1) as nat));
        }
        i += 1;
    }
}

/// A report on a source as JSON.
pub fn prepare_report_json(report: &PrepareReport) -> (r: String)
    ensures
        r@ == prepared_json(*report),
{
    let mut out = "{\n  \"kind\":".to_owned();
    out.append(json_string(report.kind.to_text()).as_str());
    out.append(",\n  \"stats\":{");
    append_stats(&mut out, report.stats);
    out.append("},\n  \"records_by_weight\":{");
    append_weights(&mut out, &report.records_by_weight);
    out.append("},\n  \"record_samples\":[");
    append_records(&mut out, &report.record_samples);
    out.append("],\n  \"error_samples\":[");
    append_samples(&mut out, &report.error_samples);
    out.append("]\n}\n");
    proof {
        assert(out@ =~= prepared_json(*report));
    }
    out
}

/// The first `n` texts as JSON.
pub open spec fn texts_json(texts: Seq<Seq<char>>, n: nat) -> Seq<char>
    decreases n,
{
    if n == 0 || n > texts.len() {
        Seq::empty()
    } else if n == 1 {
        json_quoted(texts[0])
    } else {
        texts_json(texts, (n - 1) as nat) + ","@ + json_quoted(texts[n - 1])
    }
}

/// A report on a build as JSON.
pub open spec fn built_json(report: BuildReport) -> Seq<char> {
    let shards = views(report.shard_paths@);
    "{\n  \"output\":"@ + json_quoted(report.output_path@) + ",\n  "@ + count_json(
        "records_seen"@,
        report.records_seen,
    ) + ",\n  "@ + count_json("empty_records"@, report.empty_records) + ",\n  "@ + count_json(
        "chains_emitted"@,
        report.chains_emitted,
    ) + ",\n  "@ + count_json("min_subtree_count"@, report.min_subtree_count) + ",\n  "@ + count_json(
        "node_count"@,
        report.index.node_count,
    ) + ",\n  "@ + count_json("key_count"@, report.index.key_count) + ",\n  "@ + count_json(
        "pruned_node_count"@,
        report.index.pruned_node_count,
    ) + ",\n  "@ + count_json("root_subtree"@, report.index.root_subtree) + ",\n  "@ + count_json(
        "bytes_written"@,
        report.index.bytes_written,
    ) + ",\n  \"shards\":["@ + texts_json(shards, shards.len()) + "]\n}\n"@
}

/// A report on a build as JSON.
#[verifier::rlimit(80)]
pub fn build_report_json(report: &BuildReport) -> (r: String)
    ensures
        r@ == built_json(*report),
{
    let mut out = "{\n  \"output\":".to_owned();
    out.append(json_string(report.output_path.as_str()).as_str());
    out.append(",\n  ");
    append_count(&mut out, "records_seen", report.records_seen);
    out.append(",\n  ");
    append_count(&mut out, "empty_records", report.empty_records);
    out.append(",\n  ");
    append_count(&mut out, "chains_emitted", report.chains_emitted);
    out.append(",\n  ");
    append_count(&mut out, "min_subtree_count", report.min_subtree_count);
    out.append(",\n  ");
    append_count(&mut out, "node_count", report.index.node_count);
    out.append(",\n  ");
    append_count(&mut out, "key_count", report.index.key_count);
    out.append(",\n  ");
    append_count(&mut out, "pruned_node_count", report.index.pruned_node_count);
    out.append(",\n  ");
    append_count(&mut out, "root_subtree", report.index.root_subtree);
    out.append(",\n  ");
    append_count(&mut out, "bytes_written", report.index.bytes_written);
    out.append(",\n  \"shards\":[");
    let ghost start = out@;
    let ghost all = views(report.shard_paths@);
    let mut i: usize = 0;
    assert(start + texts_json(all, 0) =~= start);
    while i < report.shard_paths.len()
        invariant
            i <= report.shard_paths@.len(),
            all == views(report.shard_paths@),
            out@ == start + texts_json(all, i as nat),
        decreases report.shard_paths.len() - i,
    {
        assert(all[i as int] == report.shard_paths@[i as int]@);
        if i > 0 {
            out.append(",");
        }
        out.append(json_string(report.shard_paths[i].as_str()).as_str());
        proof {
            assert(out@ =~= start + texts_json(all, (i + 1) as nat));
        }
        i += 1;
    }
    out.append("]\n}\n");
    proof {
        assert(out@ =~= built_json(*report));
    }
    out
}

} // verus!

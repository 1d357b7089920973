//! CSV export of raw metrics.

use vstd::prelude::*;
use vstd::string::*;

use crate::bench::result::BenchmarkResult;
use crate::text::{chars_of, decimal, join, join_texts, nat_text, texts};

verus! {

/// Column header: one name for each cell of a row.
pub const CSV_HEADER: &'static str =
    "candidate,scenario,concurrency,payload_bytes,http_version,total_requests,successful,failed,error_responses,bytes_received,duration_s,rps,throughput_mib_s,p50_us,p90_us,p95_us,p99_us,p999_us,p9999_us,max_us,mean_us,stdev_us,co_p99_us,co_p999_us,cpu_pct,rss_mb";

/// Whether a field must be quoted: a comma, a quote or a line feed in it would shift
/// what follows.
pub open spec fn needs_quotes(field: Seq<char>) -> bool {
    exists|i: int| 0 <= i < field.len() && special(#[trigger] field[i])
}

/// Whether a character has a meaning in CSV.
pub open spec fn special(c: char) -> bool {
    c == ',' || c == '"' || c == '\n'
}

/// A text with its quotes doubled.
pub open spec fn quotes_doubled(field: Seq<char>) -> Seq<char>
    decreases field.len(),
{
    if field.len() == 0 {
        Seq::empty()
    } else if field.last() == '"' {
        quotes_doubled(field.drop_last()).push('"').push('"')
    } else {
        quotes_doubled(field.drop_last()).push(field.last())
    }
}

/// A field as it stands in a row, per RFC 4180.
pub open spec fn escaped(field: Seq<char>) -> Seq<char> {
    if needs_quotes(field) {
        seq!['"'] + quotes_doubled(field) + seq!['"']
    } else {
        field
    }
}

/// Fields as they stand in a row.
pub open spec fn all_escaped(fields: Seq<Seq<char>>) -> Seq<Seq<char>> {
    Seq::new(fields.len(), |i: int| escaped(fields[i]))
}

/// A row, without its end.
pub open spec fn row_of(fields: Seq<Seq<char>>) -> Seq<char> {
    join(all_escaped(fields), ","@)
}

/// The cells of a measurement, in the order of the header.
pub open spec fn cells_of(r: BenchmarkResult) -> Seq<Seq<char>> {
    seq![
        r.candidate_name@,
        r.scenario_name@,
        nat_text(r.concurrency as nat),
        nat_text(r.payload_bytes as nat),
        r.http_version@,
        nat_text(r.total_requests as nat),
        nat_text(r.successful_requests as nat),
        nat_text(r.failed_requests as nat),
        nat_text(r.error_responses as nat),
        nat_text(r.bytes_received as nat),
        r.figures.duration_secs@,
        r.figures.rps@,
        r.figures.throughput@,
        nat_text(r.latency_p50_us as nat),
        nat_text(r.latency_p90_us as nat),
        nat_text(r.latency_p95_us as nat),
        nat_text(r.latency_p99_us as nat),
        nat_text(r.latency_p999_us as nat),
        nat_text(r.latency_p9999_us as nat),
        nat_text(r.latency_max_us as nat),
        r.figures.latency_mean_us@,
        r.figures.latency_stdev_us@,
        nat_text(r.co_corrected_p99_us as nat),
        nat_text(r.co_corrected_p999_us as nat),
        r.figures.cpu_usage_pct@,
        r.figures.rss_memory_mb@,
    ]
}

/// The rows of measurements, each on a line of its own.
pub open spec fn rows_of(results: Seq<BenchmarkResult>) -> Seq<char>
    decreases results.len(),
{
    if results.len() == 0 {
        Seq::empty()
    } else {
        rows_of(results.drop_last()) + row_of(cells_of(results.last())) + "\n"@
    }
}

/// Quote a field that contains a comma, a quote or a line feed, per RFC 4180.
///
/// Scenario names contain commas, which would otherwise shift every subsequent
/// column.
pub fn escape(field: &str) -> (r: String)
    ensures
        r@ == escaped(field@),
{
    let chars = chars_of(field);
    let mut quoted = String::new();
    let mut needed = false;
    let mut i: usize = 0;
    quoted.push('"');
    assert(field@.take(0) =~= Seq::empty());
    assert(quoted@ =~= seq!['"'] + quotes_doubled(field@.take(0)));
    while i < chars.len()
        invariant
            i <= chars@.len(),
            chars@ == field@,
            quoted@ == seq!['"'] + quotes_doubled(field@.take(i as int)),
            needed <==> exists|k: int| 0 <= k < i && special(#[trigger] field@[k]),
        decreases chars@.len() - i,
    {
        let c = chars[i];
        assert(field@.take(i + 1).drop_last() =~= field@.take(i as int));
        if c == ',' || c == '"' || c == '\n' {
            needed = true;
            assert(special(field@[i as int]));
        }
        quoted.push(c);
        if c == '"' {
            quoted.push('"');
        }
        i = i + 1;
        assert(quoted@ =~= seq!['"'] + quotes_doubled(field@.take(i as int)));
    }
    assert(field@.take(i as int) =~= field@);
    if needed {
        quoted.push('"');
        assert(quoted@ =~= escaped(field@));
        quoted
    } else {
        field.to_owned()
    }
}

fn cells(r: &BenchmarkResult) -> (out: Vec<String>)
    ensures
        texts(out@) == all_escaped(cells_of(*r)),
{
    let mut plain: Vec<String> = Vec::new();
    plain.push(r.candidate_name.as_str().to_owned());
    plain.push(r.scenario_name.as_str().to_owned());
    plain.push(decimal(r.concurrency as u64));
    plain.push(decimal(r.payload_bytes as u64));
    plain.push(r.http_version.as_str().to_owned());
    plain.push(decimal(r.total_requests));
    plain.push(decimal(r.successful_requests));
    plain.push(decimal(r.failed_requests));
    plain.push(decimal(r.error_responses));
    plain.push(decimal(r.bytes_received));
    plain.push(r.figures.duration_secs.as_str().to_owned());
    plain.push(r.figures.rps.as_str().to_owned());
    plain.push(r.figures.throughput.as_str().to_owned());
    plain.push(decimal(r.latency_p50_us));
    plain.push(decimal(r.latency_p90_us));
    plain.push(decimal(r.latency_p95_us));
    plain.push(decimal(r.latency_p99_us));
    plain.push(decimal(r.latency_p999_us));
    plain.push(decimal(r.latency_p9999_us));
    plain.push(decimal(r.latency_max_us));
    plain.push(r.figures.latency_mean_us.as_str().to_owned());
    plain.push(r.figures.latency_stdev_us.as_str().to_owned());
    plain.push(decimal(r.co_corrected_p99_us));
    plain.push(decimal(r.co_corrected_p999_us));
    plain.push(r.figures.cpu_usage_pct.as_str().to_owned());
    plain.push(r.figures.rss_memory_mb.as_str().to_owned());
    let ghost all = cells_of(*r);
    assert(texts(plain@) =~= all);
    let mut out: Vec<String> = Vec::new();
    let mut i: usize = 0;
    while i < plain.len()
        invariant
            i == out@.len() <= plain@.len(),
            texts(plain@) == all,
            forall|k: int| 0 <= k < i ==> (#[trigger] out@[k])@ == escaped(all[k]),
        decreases plain@.len() - i,
    {
        assert(all[i as int] == plain@[i as int]@);
        out.push(escape(plain[i].as_str()));
        i = i + 1;
    }
    assert(texts(out@) =~= all_escaped(all));
    out
}

/// Render results as CSV: the header and a row for each of them.
#[must_use]
pub fn export_csv(results: &Vec<BenchmarkResult>) -> (r: String)
    ensures
        r@ == CSV_HEADER@ + "\n"@ + rows_of(results@),
{
    let mut csv = CSV_HEADER.to_owned();
    csv.append("\n");
    let ghost head = csv@;
    let mut i: usize = 0;
    assert(results@.take(0) =~= Seq::empty());
    assert(csv@ =~= head + rows_of(results@.take(0)));
    while i < results.len()
        invariant
            i <= results@.len(),
            csv@ == head + rows_of(results@.take(i as int)),
        decreases results@.len() - i,
    {
        assert(results@.take(i + 1).drop_last() =~= results@.take(i as int));
        let list = cells(&results[i]);
        let row = join_texts(&list, ",");
        csv.append(row.as_str());
        csv.append("\n");
        i = i + 1;
        assert(csv@ =~= head + rows_of(results@.take(i as int)));
    }
    assert(results@.take(i as int) =~= results@);
    csv
}

// ---------------------------------------------------------------------------
// Reading a row back
// ---------------------------------------------------------------------------

/// What is left of a row to read: the fields that are complete, the one that is being
/// read and whether it is inside quotes.
pub ghost struct Reading {
    pub fields: Seq<Seq<char>>,
    pub current: Seq<char>,
    pub quoted: bool,
}

/// The fields of a row, per RFC 4180: a comma outside quotes ends a field, and two
/// quotes inside quotes stand for one.
pub open spec fn fields_from(row: Seq<char>, state: Reading) -> Seq<Seq<char>>
    decreases row.len(),
{
    if row.len() == 0 {
        state.fields.push(state.current)
    } else if row[0] == '"' {
        if state.quoted && row.len() > 1 && row[1] == '"' {
            fields_from(row.skip(2), Reading { current: state.current.push('"'), ..state })
        } else {
            fields_from(row.skip(1), Reading { quoted: !state.quoted, ..state })
        }
    } else if row[0] == ',' && !state.quoted {
        fields_from(
            row.skip(1),
            Reading {
                fields: state.fields.push(state.current),
                current: Seq::empty(),
                quoted: false,
            },
        )
    } else {
        fields_from(row.skip(1), Reading { current: state.current.push(row[0]), ..state })
    }
}

/// The fields of a row.
pub open spec fn fields_of(row: Seq<char>) -> Seq<Seq<char>> {
    fields_from(row, Reading { fields: Seq::empty(), current: Seq::empty(), quoted: false })
}

/// A text with its quotes doubled, read from its beginning.
spec fn doubled_forward(field: Seq<char>) -> Seq<char>
    decreases field.len(),
{
    if field.len() == 0 {
        Seq::empty()
    } else if field[0] == '"' {
        seq!['"', '"'] + doubled_forward(field.skip(1))
    } else {
        seq![field[0]] + doubled_forward(field.skip(1))
    }
}

proof fn lemma_doubled(a: Seq<char>)
    ensures
        quotes_doubled(a) == doubled_forward(a),
    decreases a.len(),
{
    if a.len() == 1 {
        reveal_with_fuel(quotes_doubled, 2);
        reveal_with_fuel(doubled_forward, 2);
        assert(a.drop_last() =~= Seq::empty());
        assert(a.skip(1) =~= Seq::empty());
        assert(quotes_doubled(a) =~= doubled_forward(a));
    } else if a.len() > 1 {
        let mid = a.skip(1).drop_last();
        assert(a.drop_last().skip(1) =~= mid);
        lemma_doubled(a.drop_last());
        lemma_doubled(a.skip(1));
        lemma_doubled(mid);
        assert(a.drop_last()[0] == a[0]);
        assert(a.skip(1).last() == a.last());
        assert(quotes_doubled(a) =~= doubled_forward(a));
    }
}

proof fn lemma_read_plain(field: Seq<char>, rest: Seq<char>, state: Reading)
    requires
        forall|i: int| 0 <= i < field.len() ==> !special(#[trigger] field[i]),
        !state.quoted,
    ensures
        fields_from(field + rest, state) == fields_from(
            rest,
            Reading { current: state.current + field, ..state },
        ),
    decreases field.len(),
{
    if field.len() == 0 {
        assert(field + rest =~= rest);
        assert(state.current + field =~= state.current);
    } else {
        assert(!special(field[0]));
        assert((field + rest)[0] == field[0]);
        assert((field + rest).skip(1) =~= field.skip(1) + rest);
        assert forall|i: int| 0 <= i < field.skip(1).len() implies !special(
            #[trigger] field.skip(1)[i],
        ) by {
            assert(field.skip(1)[i] == field[i + 1]);
        }
        let next = Reading { current: state.current.push(field[0]), ..state };
        lemma_read_plain(field.skip(1), rest, next);
        assert(next.current + field.skip(1) =~= state.current + field);
    }
}

proof fn lemma_read_quoted(field: Seq<char>, rest: Seq<char>, state: Reading)
    requires
        state.quoted,
        rest.len() == 0 || rest[0] != '"',
    ensures
        fields_from(doubled_forward(field) + seq!['"'] + rest, state) == fields_from(
            rest,
            Reading { current: state.current + field, quoted: false, ..state },
        ),
    decreases field.len(),
{
    let row = doubled_forward(field) + seq!['"'] + rest;
    if field.len() == 0 {
        assert(row =~= seq!['"'] + rest);
        assert(row.skip(1) =~= rest);
        if rest.len() > 0 {
            assert(row[1] == rest[0]);
        }
        assert(state.current + field =~= state.current);
    } else {
        let next = Reading { current: state.current.push(field[0]), ..state };
        lemma_read_quoted(field.skip(1), rest, next);
        let tail = doubled_forward(field.skip(1)) + seq!['"'] + rest;
        assert(next.current + field.skip(1) =~= state.current + field);
        if field[0] == '"' {
            assert(row =~= seq!['"', '"'] + tail);
            assert(row.skip(2) =~= tail);
            assert(row[0] == '"' && row[1] == '"');
        } else {
            assert(row =~= seq![field[0]] + tail);
            assert(row.skip(1) =~= tail);
        }
    }
}

proof fn lemma_read_field(field: Seq<char>, rest: Seq<char>, state: Reading)
    requires
        !state.quoted,
        state.current.len() == 0,
        rest.len() == 0 || rest[0] == ',',
    ensures
        fields_from(escaped(field) + rest, state) == fields_from(
            rest,
            Reading { current: field, ..state },
        ),
{
    if needs_quotes(field) {
        lemma_doubled(field);
        let inner = Reading { quoted: true, ..state };
        lemma_read_quoted(field, rest, inner);
        let row = escaped(field) + rest;
        assert(row[0] == '"');
        assert(row.skip(1) =~= doubled_forward(field) + seq!['"'] + rest);
        assert(state.current + field =~= field);
    } else {
        lemma_read_plain(field, rest, state);
        assert(state.current + field =~= field);
    }
}

/// Joining from the front.
spec fn join_forward(list: Seq<Seq<char>>) -> Seq<char>
    decreases list.len(),
{
    if list.len() == 0 {
        Seq::empty()
    } else if list.len() == 1 {
        list[0]
    } else {
        list[0] + seq![','] + join_forward(list.skip(1))
    }
}

proof fn lemma_join_forward(list: Seq<Seq<char>>)
    ensures
        join(list, seq![',']) == join_forward(list),
    decreases list.len(),
{
    if list.len() == 2 {
        assert(list.drop_last() =~= seq![list[0]]);
        assert(list.skip(1) =~= seq![list[1]]);
        assert(join(list.drop_last(), seq![',']) == list[0]);
        assert(join_forward(list.skip(1)) == list[1]);
        assert(join(list, seq![',']) =~= join_forward(list));
    } else if list.len() > 2 {
        let mid = list.skip(1).drop_last();
        assert(list.drop_last().skip(1) =~= mid);
        lemma_join_forward(list.drop_last());
        lemma_join_forward(list.skip(1));
        lemma_join_forward(mid);
        assert(list.drop_last()[0] == list[0]);
        assert(list.skip(1).last() == list.last());
        assert(join(list, seq![',']) =~= join_forward(list));
    }
}

proof fn lemma_read_row(fields: Seq<Seq<char>>, done: Seq<Seq<char>>)
    requires
        fields.len() > 0,
    ensures
        fields_from(
            join_forward(all_escaped(fields)),
            Reading { fields: done, current: Seq::empty(), quoted: false },
        ) == done + fields,
    decreases fields.len(),
{
    let state = Reading { fields: done, current: Seq::empty(), quoted: false };
    let list = all_escaped(fields);
    if fields.len() == 1 {
        lemma_read_field(fields[0], Seq::empty(), state);
        assert(join_forward(list) =~= escaped(fields[0]) + Seq::<char>::empty());
        assert(done.push(fields[0]) =~= done + fields);
    } else {
        let tail = join_forward(list.skip(1));
        let rest = seq![','] + tail;
        assert(list.skip(1) =~= all_escaped(fields.skip(1)));
        assert(join_forward(list) =~= escaped(fields[0]) + rest);
        lemma_read_field(fields[0], rest, state);
        assert(rest.skip(1) =~= tail);
        lemma_read_row(fields.skip(1), done.push(fields[0]));
        assert(done.push(fields[0]) + fields.skip(1) =~= done + fields);
    }
}

/// Reading a row gives back the fields that it was made of, whatever they hold.
pub proof fn lemma_rows_read_back(fields: Seq<Seq<char>>)
    requires
        fields.len() > 0,
    ensures
        fields_of(row_of(fields)) == fields,
{
    reveal_strlit(",");
    assert(","@ =~= seq![',']);
    lemma_join_forward(all_escaped(fields));
    lemma_read_row(fields, Seq::empty());
    assert(Seq::<Seq<char>>::empty() + fields =~= fields);
}

/// Every row has as many fields as a row of the same table, whatever its names hold.
pub proof fn lemma_rows_have_one_width(r: BenchmarkResult)
    ensures
        fields_of(row_of(cells_of(r))) == cells_of(r),
        cells_of(r).len() == 26,
{
    lemma_rows_read_back(cells_of(r));
}

} // verus!

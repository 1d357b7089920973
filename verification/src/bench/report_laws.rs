//! What is measured is what is reported, run by run and figure by figure.

use vstd::prelude::*;

use crate::bench::csv::{cells_of, fields_of, lemma_rows_read_back, row_of, rows_of};
use crate::bench::report::{bytes_text, table_cells, table_row, table_rows, Table};
use crate::bench::result::BenchmarkResult;
use crate::text::nat_text;

verus! {

/// The row of a run reads back as its figures, each in its column.
pub proof fn lemma_figures_read_back(r: BenchmarkResult)
    ensures
        ({
            let read = fields_of(row_of(cells_of(r)));
            &&& read.len() == 26
            &&& read[0] == r.candidate_name@ && read[1] == r.scenario_name@
            &&& read[2] == nat_text(r.concurrency as nat)
            &&& read[3] == nat_text(r.payload_bytes as nat)
            &&& read[4] == r.http_version@
            &&& read[5] == nat_text(r.total_requests as nat)
            &&& read[6] == nat_text(r.successful_requests as nat)
            &&& read[7] == nat_text(r.failed_requests as nat)
            &&& read[8] == nat_text(r.error_responses as nat)
            &&& read[9] == nat_text(r.bytes_received as nat)
            &&& read[10] == r.figures.duration_secs@ && read[11] == r.figures.rps@
            &&& read[12] == r.figures.throughput@
            &&& read[13] == nat_text(r.latency_p50_us as nat)
            &&& read[14] == nat_text(r.latency_p90_us as nat)
            &&& read[15] == nat_text(r.latency_p95_us as nat)
            &&& read[16] == nat_text(r.latency_p99_us as nat)
            &&& read[17] == nat_text(r.latency_p999_us as nat)
            &&& read[18] == nat_text(r.latency_p9999_us as nat)
            &&& read[19] == nat_text(r.latency_max_us as nat)
            &&& read[20] == r.figures.latency_mean_us@ && read[21] == r.figures.latency_stdev_us@
            &&& read[22] == nat_text(r.co_corrected_p99_us as nat)
            &&& read[23] == nat_text(r.co_corrected_p999_us as nat)
            &&& read[24] == r.figures.cpu_usage_pct@ && read[25] == r.figures.rss_memory_mb@
        }),
{
    lemma_rows_read_back(cells_of(r));
}

/// Every run has a row of its own, behind those of the runs before it: no run is left out,
/// and none is told twice.
pub proof fn lemma_every_run_has_its_row(a: Seq<BenchmarkResult>, r: BenchmarkResult)
    ensures
        rows_of(Seq::<BenchmarkResult>::empty()).len() == 0,
        rows_of(a.push(r)) == rows_of(a) + row_of(cells_of(r)) + "\n"@,
{
    assert(a.push(r).drop_last() =~= a);
}

/// Every run has a row of its own in every table but that of the runs that cannot be
/// trusted, which has rows for those alone.
pub proof fn lemma_every_run_is_in_the_tables(a: Seq<BenchmarkResult>, r: BenchmarkResult, t: Table)
    ensures
        table_rows(t, Seq::<BenchmarkResult>::empty()).len() == 0,
        t != Table::Unclean || !r.clean() ==> table_rows(t, a.push(r)) == table_rows(t, a)
            + table_row(table_cells(t, r)),
        t == Table::Unclean && r.clean() ==> table_rows(t, a.push(r)) == table_rows(t, a),
{
    assert(a.push(r).drop_last() =~= a);
}

/// A size is told in the largest unit of which it has one, and so many of them as it has
/// whole.
pub proof fn lemma_sizes_are_told_in_whole_units(bytes: nat, n: nat)
    ensures
        bytes == 0 ==> bytes_text(bytes) == "-"@,
        0 < bytes < 1_024 ==> bytes_text(bytes) == nat_text(bytes) + " B"@,
        1 <= n < 1_024 && 1_024 * n <= bytes < 1_024 * (n + 1) ==> bytes_text(bytes) == nat_text(n)
            + " KiB"@,
        1 <= n && 1_048_576 * n <= bytes < 1_048_576 * (n + 1) ==> bytes_text(bytes) == nat_text(n)
            + " MiB"@,
{
}

} // verus!

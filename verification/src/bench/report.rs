//! The Markdown comparison report, and the layout of one run's results.

use vstd::prelude::*;
use vstd::string::*;

use crate::bench::calendar::{zero_pad, zero_padded};
use crate::bench::result::BenchmarkResult;
use crate::bench::runner::{pair_pgo_results, pairs_up_to, place_pairs};
use crate::lb_core::binary64::{
    double_of, lemma_double_bounds, lemma_ratio_bounds, nearest_double, ratio_in, ratio_parts,
};
use crate::text::{
    around, chars_of, decimal, join, join_path, join_texts, joined, lines, lines_of, nat_text,
    path_join, string_of, texts, trim, trimmed,
};

verus! {

/// What stands above the headline figures.
pub const SUMMARY_HEAD: &'static str =
    "## Throughput & Latency\n\n| Candidate | Proto | Payload | Conn | RPS | Throughput | p50 | p99 | p99.9 |\n| :--- | :--- | ---: | ---: | ---: | ---: | ---: | ---: | ---: |\n";

/// What stands above the tail latencies.
pub const TAIL_HEAD: &'static str =
    "## Tail Latency (raw vs. coordinated-omission corrected)\n\nA closed-loop generator cannot observe the requests it failed to send while blocked on a slow response. The corrected columns apply HdrHistogram's `record_correct` back-fill against the run's pacing interval, which reconstructs those missing samples.\n\nCorrection moves the tail *up* when slowness is bursty — a few long stalls hide many requests that were never issued — and *down* when the whole run is uniformly saturated, because then the back-filled samples are spread below the observed latency rather than piled at it. Both are the same computation; the direction tells you which regime the candidate was in.\n\nRaw and corrected are identical for closed-loop runs (no `--target-rps`), where there is no pacing interval to correct against.\n\n| Candidate | Conn | p99 raw | p99 corrected | p99.9 raw | p99.9 corrected | p99.99 | max |\n| :--- | ---: | ---: | ---: | ---: | ---: | ---: | ---: |\n";

/// What stands above CPU and memory.
pub const RESOURCE_HEAD: &'static str =
    "## Resource Footprint\n\nSampled from the candidate's own process (and its children), not from the benchmark harness.\n\n| Candidate | Conn | CPU (mean) | Peak RSS | RSS per 1k conn |\n| :--- | ---: | ---: | ---: | ---: |\n";

/// What is said where every run can be trusted.
pub const CLEAN_RUNS: &'static str =
    "## Run Integrity\n\nAll measurements completed with zero transport failures and zero error responses.\n\n";

/// What stands above the runs that cannot be trusted.
pub const UNCLEAN_HEAD: &'static str =
    "## Run Integrity\n\n> [!WARNING]\n> The runs below recorded failures or error responses. Their throughput figures are not comparable with clean runs, because a request that 404s costs the proxy far less than one it forwards.\n\n| Candidate | Conn | Failed | 4xx/5xx | Share |\n| :--- | ---: | ---: | ---: | ---: |\n";

/// What stands above the comparison of builds.
pub const PGO_HEAD: &'static str =
    "## PGO Impact Delta\n\n| Workload | Standard RPS | PGO RPS | Δ | Standard p99 | PGO p99 |\n| :--- | ---: | ---: | ---: | ---: | ---: |\n";

/// What stands above the environment.
pub const HARDWARE_HEAD: &'static str =
    "### Hardware & Environment\n\n| Property | Value |\n| :--- | :--- |\n";

// ---------------------------------------------------------------------------
// Units
// ---------------------------------------------------------------------------

/// A byte count, compactly.
pub open spec fn bytes_text(bytes: nat) -> Seq<char> {
    if bytes == 0 {
        "-"@
    } else if bytes >= 1_048_576 {
        nat_text(bytes / 1_048_576) + " MiB"@
    } else if bytes >= 1024 {
        nat_text(bytes / 1024) + " KiB"@
    } else {
        nat_text(bytes) + " B"@
    }
}

/// Render a byte count compactly.
#[must_use]
pub fn human_bytes(bytes: usize) -> (r: String)
    ensures
        r@ == bytes_text(bytes as nat),
{
    let n: u64 = bytes as u64;
    if n == 0 {
        "-".to_owned()
    } else if n >= 1_048_576 {
        joined(decimal(n / 1_048_576).as_str(), " MiB")
    } else if n >= 1024 {
        joined(decimal(n / 1024).as_str(), " KiB")
    } else {
        joined(decimal(n).as_str(), " B")
    }
}

/// A number of hundredths with two decimals.
pub open spec fn two_decimals(hundredths: nat) -> Seq<char> {
    nat_text(hundredths / 100) + "."@ + zero_padded(hundredths % 100, 2)
}

/// The hundredths of the double that is `n` divided by `unit`.
pub open spec fn hundredths(n: int, unit: int) -> nat {
    ratio_in(double_of(n), unit, 100) as nat
}

/// Microseconds in the most readable unit: a second or a millisecond and more with
/// two decimals.
pub open spec fn micros_text(us: u64) -> Seq<char> {
    if us >= 1_000_000 {
        two_decimals(hundredths(us as int, 1_000_000)) + " s"@
    } else if us >= 1_000 {
        two_decimals(hundredths(us as int, 1_000)) + " ms"@
    } else {
        nat_text(us as nat) + " µs"@
    }
}

fn quotient_text(n: u64, unit: u64) -> (r: String)
    requires
        unit == 1_000 && n < 1_000_000 || unit == 1_000_000,
        n >= unit,
    ensures
        r@ == two_decimals(hundredths(n as int, unit as int)),
{
    let top: u128 = nearest_double(n as u128);
    proof {
        lemma_double_bounds(n as int);
        assert(top <= unit * 0x10_0000_0000_0000);
        lemma_ratio_bounds(top as int, unit as int, 100);
        let x = ratio_in(top as int, unit as int, 100);
        assert(x <= x * unit) by (nonlinear_arith)
            requires
                0 <= x,
                1 <= unit,
        ;
        assert(x * unit <= 400 * top + 4 * unit);
        assert(x <= 0x1_0000_0000_0000_0000) by (nonlinear_arith)
            requires
                x * unit <= 400 * top + 4 * unit,
                unit == 1_000 && top < 2_000_000 || unit == 1_000_000 && top <= 2
                    * 0x1_0000_0000_0000_0000,
                0 <= x,
        ;
    }
    let h: u128 = ratio_parts(top, unit, 100);
    proof {
        assert(h < 0x1_0000_0000_0000_0000) by (nonlinear_arith)
            requires
                h * unit <= 400 * top + 4 * unit,
                unit == 1_000 && top < 2_000_000 || unit == 1_000_000 && top <= 2
                    * 0x1_0000_0000_0000_0000,
                0 <= h,
        ;
    }
    let h: u64 = h as u64;
    around(decimal(h / 100).as_str(), ".", zero_pad(h % 100, 2).as_str())
}

/// Render microseconds in the most readable unit.
#[must_use]
pub fn micros(us: u64) -> (r: String)
    ensures
        r@ == micros_text(us),
{
    if us >= 1_000_000 {
        joined(quotient_text(us, 1_000_000).as_str(), " s")
    } else if us >= 1_000 {
        joined(quotient_text(us, 1_000).as_str(), " ms")
    } else {
        joined(decimal(us).as_str(), " µs")
    }
}

// ---------------------------------------------------------------------------
// Tables
// ---------------------------------------------------------------------------

/// A row of a table.
pub open spec fn table_row(cells: Seq<Seq<char>>) -> Seq<char> {
    "| "@ + join(cells, " | "@) + " |\n"@
}

fn row_text(cells: &Vec<String>) -> (r: String)
    ensures
        r@ == table_row(texts(cells@)),
{
    around("| ", join_texts(cells, " | ").as_str(), " |\n")
}

/// The cells of the headline table.
pub open spec fn summary_cells(r: BenchmarkResult) -> Seq<Seq<char>> {
    seq![
        "**"@ + r.candidate_name@ + "**"@,
        r.http_version@,
        bytes_text(r.payload_bytes as nat),
        nat_text(r.concurrency as nat),
        "**"@ + r.figures.rps_whole@ + "**"@,
        r.figures.throughput_short@ + " MiB/s"@,
        micros_text(r.latency_p50_us),
        micros_text(r.latency_p99_us),
        micros_text(r.latency_p999_us),
    ]
}

/// The cells of the table of tail latencies.
pub open spec fn tail_cells(r: BenchmarkResult) -> Seq<Seq<char>> {
    seq![
        r.candidate_name@,
        nat_text(r.concurrency as nat),
        micros_text(r.latency_p99_us),
        micros_text(r.co_corrected_p99_us),
        micros_text(r.latency_p999_us),
        micros_text(r.co_corrected_p999_us),
        micros_text(r.latency_p9999_us),
        micros_text(r.latency_max_us),
    ]
}

/// The cells of the table of resources.
pub open spec fn resource_cells(r: BenchmarkResult) -> Seq<Seq<char>> {
    seq![
        r.candidate_name@,
        nat_text(r.concurrency as nat),
        r.figures.cpu_usage_short@ + "%"@,
        r.figures.rss_memory_short@ + " MiB"@,
        r.figures.rss_per_thousand@ + " MiB"@,
    ]
}

/// The cells of the table of runs that cannot be trusted.
pub open spec fn unclean_cells(r: BenchmarkResult) -> Seq<Seq<char>> {
    seq![
        r.candidate_name@,
        nat_text(r.concurrency as nat),
        nat_text(r.failed_requests as nat),
        nat_text(r.error_responses as nat),
        r.figures.unclean_share@ + "%"@,
    ]
}

/// Which of the tables is meant.
#[derive(Debug, Clone, Copy, PartialEq, Eq, Structural)]
pub enum Table {
    Summary,
    Tail,
    Resources,
    Unclean,
}

/// The cells that a table has on a measurement.
pub open spec fn table_cells(table: Table, r: BenchmarkResult) -> Seq<Seq<char>> {
    match table {
        Table::Summary => summary_cells(r),
        Table::Tail => tail_cells(r),
        Table::Resources => resource_cells(r),
        Table::Unclean => unclean_cells(r),
    }
}

/// Whether a table has a row on a measurement: only the one of runs that cannot be
/// trusted leaves any out.
pub open spec fn table_shows(table: Table, r: BenchmarkResult) -> bool {
    table != Table::Unclean || !r.clean()
}

/// The rows that a table has on measurements.
pub open spec fn table_rows(table: Table, results: Seq<BenchmarkResult>) -> Seq<char>
    decreases results.len(),
{
    if results.len() == 0 {
        Seq::empty()
    } else if table_shows(table, results.last()) {
        table_rows(table, results.drop_last()) + table_row(table_cells(table, results.last()))
    } else {
        table_rows(table, results.drop_last())
    }
}

fn cells(table: Table, r: &BenchmarkResult) -> (out: Vec<String>)
    ensures
        texts(out@) == table_cells(table, *r),
{
    let mut out: Vec<String> = Vec::new();
    match table {
        Table::Summary => {
            out.push(around("**", r.candidate_name.as_str(), "**"));
            out.push(r.http_version.as_str().to_owned());
            out.push(human_bytes(r.payload_bytes));
            out.push(decimal(r.concurrency as u64));
            out.push(around("**", r.figures.rps_whole.as_str(), "**"));
            out.push(joined(r.figures.throughput_short.as_str(), " MiB/s"));
            out.push(micros(r.latency_p50_us));
            out.push(micros(r.latency_p99_us));
            out.push(micros(r.latency_p999_us));
            assert(texts(out@) =~= summary_cells(*r));
        },
        Table::Tail => {
            out.push(r.candidate_name.as_str().to_owned());
            out.push(decimal(r.concurrency as u64));
            out.push(micros(r.latency_p99_us));
            out.push(micros(r.co_corrected_p99_us));
            out.push(micros(r.latency_p999_us));
            out.push(micros(r.co_corrected_p999_us));
            out.push(micros(r.latency_p9999_us));
            out.push(micros(r.latency_max_us));
            assert(texts(out@) =~= tail_cells(*r));
        },
        Table::Resources => {
            out.push(r.candidate_name.as_str().to_owned());
            out.push(decimal(r.concurrency as u64));
            out.push(joined(r.figures.cpu_usage_short.as_str(), "%"));
            out.push(joined(r.figures.rss_memory_short.as_str(), " MiB"));
            out.push(joined(r.figures.rss_per_thousand.as_str(), " MiB"));
            assert(texts(out@) =~= resource_cells(*r));
        },
        Table::Unclean => {
            out.push(r.candidate_name.as_str().to_owned());
            out.push(decimal(r.concurrency as u64));
            out.push(decimal(r.failed_requests));
            out.push(decimal(r.error_responses));
            out.push(joined(r.figures.unclean_share.as_str(), "%"));
            assert(texts(out@) =~= unclean_cells(*r));
        },
    }
    out
}

fn rows(table: Table, results: &Vec<BenchmarkResult>) -> (out: String)
    ensures
        out@ == table_rows(table, results@),
{
    let mut out = String::new();
    let mut i: usize = 0;
    assert(results@.take(0) =~= Seq::empty());
    assert(out@ =~= table_rows(table, results@.take(0)));
    while i < results.len()
        invariant
            i <= results@.len(),
            out@ == table_rows(table, results@.take(i as int)),
        decreases results@.len() - i,
    {
        assert(results@.take(i + 1).drop_last() =~= results@.take(i as int));
        if table != Table::Unclean || !results[i].is_clean() {
            let list = cells(table, &results[i]);
            out.append(row_text(&list).as_str());
        }
        i = i + 1;
    }
    assert(results@.take(i as int) =~= results@);
    out
}

/// Headline throughput and latency, one row per measurement.
pub open spec fn summary_section(results: Seq<BenchmarkResult>) -> Seq<char> {
    SUMMARY_HEAD@ + table_rows(Table::Summary, results) + "\n"@
}

/// Raw and corrected tail, which is the number that matters for a closed-loop
/// generator under saturation.
pub open spec fn tail_section(results: Seq<BenchmarkResult>) -> Seq<char> {
    TAIL_HEAD@ + table_rows(Table::Tail, results) + "\n"@
}

/// CPU and memory, attributed to the proxy process alone.
pub open spec fn resource_section(results: Seq<BenchmarkResult>) -> Seq<char> {
    RESOURCE_HEAD@ + table_rows(Table::Resources, results) + "\n"@
}

/// The runs whose numbers should not be trusted.
pub open spec fn integrity_section(results: Seq<BenchmarkResult>) -> Seq<char> {
    if forall|i: int| 0 <= i < results.len() ==> (#[trigger] results[i]).clean() {
        CLEAN_RUNS@
    } else {
        UNCLEAN_HEAD@ + table_rows(Table::Unclean, results) + "\n"@
    }
}

fn integrity_text(results: &Vec<BenchmarkResult>) -> (r: String)
    ensures
        r@ == integrity_section(results@),
{
    let mut i: usize = 0;
    while i < results.len()
        invariant
            i <= results@.len(),
            forall|k: int| 0 <= k < i ==> (#[trigger] results@[k]).clean(),
        decreases results@.len() - i,
    {
        if !results[i].is_clean() {
            return around(UNCLEAN_HEAD, rows(Table::Unclean, results).as_str(), "\n");
        }
        i = i + 1;
    }
    CLEAN_RUNS.to_owned()
}

// ---------------------------------------------------------------------------
// Environment
// ---------------------------------------------------------------------------

/// A full environment snapshot, embedded in every report for reproducibility.
#[derive(Debug)]
pub struct HardwareSpec {
    pub cpu_model: String,
    pub cpu_cores_physical: usize,
    pub cpu_cores_logical: usize,
    pub cpu_frequency_mhz: u64,
    /// The memory in GiB, to two decimals.
    pub ram_total_gb: String,
    pub os: String,
    pub kernel: String,
    pub arch: String,
    pub rust_version: String,
    pub docker_version: String,
    pub kind_version: String,
    pub target_cpu: String,
    pub build_profile: String,
    pub timestamp_utc: String,
}

/// A row that names a property.
pub open spec fn property_row(name: Seq<char>, value: Seq<char>) -> Seq<char> {
    "| "@ + name + " | "@ + value + " |\n"@
}

fn push_property(out: &mut String, name: &str, value: &str)
    ensures
        final(out)@ == old(out)@ + property_row(name@, value@),
{
    let ghost start = out@;
    out.append("| ");
    out.append(name);
    out.append(" | ");
    out.append(value);
    out.append(" |\n");
    assert(out@ =~= start + property_row(name@, value@));
}

/// The environment as a section of the report.
pub open spec fn hardware_section(hw: HardwareSpec) -> Seq<char> {
    HARDWARE_HEAD@ + property_row("CPU"@, hw.cpu_model@) + property_row(
        "Cores"@,
        nat_text(hw.cpu_cores_physical as nat) + " physical / "@ + nat_text(
            hw.cpu_cores_logical as nat,
        ) + " logical"@,
    ) + property_row("CPU frequency"@, nat_text(hw.cpu_frequency_mhz as nat) + " MHz"@)
        + property_row("RAM"@, hw.ram_total_gb@ + " GB"@) + property_row("OS"@, hw.os@)
        + property_row("Kernel"@, hw.kernel@) + property_row("Architecture"@, hw.arch@)
        + property_row("Vector features"@, hw.target_cpu@) + property_row(
        "Rust toolchain"@,
        hw.rust_version@,
    ) + property_row("Build profile"@, hw.build_profile@) + property_row(
        "Docker"@,
        hw.docker_version@,
    ) + property_row("kind"@, hw.kind_version@) + property_row("Captured"@, hw.timestamp_utc@)
        + "\n"@
}

/// Render the hardware spec as a Markdown section for the report.
#[must_use]
pub fn hardware_markdown(hw: &HardwareSpec) -> (r: String)
    ensures
        r@ == hardware_section(*hw),
{
    let mut out = HARDWARE_HEAD.to_owned();
    let physical = joined(decimal(hw.cpu_cores_physical as u64).as_str(), " physical / ");
    let cores = around(
        physical.as_str(),
        decimal(hw.cpu_cores_logical as u64).as_str(),
        " logical",
    );
    let frequency = joined(decimal(hw.cpu_frequency_mhz).as_str(), " MHz");
    let ram = joined(hw.ram_total_gb.as_str(), " GB");
    push_property(&mut out, "CPU", hw.cpu_model.as_str());
    push_property(&mut out, "Cores", cores.as_str());
    push_property(&mut out, "CPU frequency", frequency.as_str());
    push_property(&mut out, "RAM", ram.as_str());
    push_property(&mut out, "OS", hw.os.as_str());
    push_property(&mut out, "Kernel", hw.kernel.as_str());
    push_property(&mut out, "Architecture", hw.arch.as_str());
    push_property(&mut out, "Vector features", hw.target_cpu.as_str());
    push_property(&mut out, "Rust toolchain", hw.rust_version.as_str());
    push_property(&mut out, "Build profile", hw.build_profile.as_str());
    push_property(&mut out, "Docker", hw.docker_version.as_str());
    push_property(&mut out, "kind", hw.kind_version.as_str());
    push_property(&mut out, "Captured", hw.timestamp_utc.as_str());
    out.append("\n");
    out
}

/// What a tool says of its version: the first line of its output without white space
/// around it.
pub open spec fn version_in(output: Option<&str>) -> Seq<char> {
    match output {
        Some(text) => if lines_of(text@).len() > 0 && trimmed(lines_of(text@)[0]).len() > 0 {
            trimmed(lines_of(text@)[0])
        } else {
            "not installed"@
        },
        None => "not installed"@,
    }
}

/// The version of a tool from what it printed, if it ran.
#[must_use]
pub fn tool_version(output: Option<&str>) -> (r: String)
    ensures
        r@ == version_in(output),
{
    if let Some(text) = output {
        let all = lines(text);
        assert(all@.len() == lines_of(text@).len());
        if all.len() > 0 {
            let line = trim(all[0].as_str());
            assert(texts(all@)[0] == all@[0]@);
            if line.as_str().unicode_len() > 0 {
                return line;
            }
        }
    }
    "not installed".to_owned()
}

/// The model of a CPU, as far as it tells one.
#[must_use]
pub fn cpu_model(brand: Option<&str>) -> (r: String)
    ensures
        r@ == match brand {
            Some(b) => if trimmed(b@).len() > 0 {
                trimmed(b@)
            } else {
                "Unknown CPU"@
            },
            None => "Unknown CPU"@,
        },
{
    if let Some(b) = brand {
        let model = trim(b);
        if model.as_str().unicode_len() > 0 {
            return model;
        }
    }
    "Unknown CPU".to_owned()
}

/// An architecture with the vector features that were compiled in.
#[must_use]
pub fn target_cpu(arch: &str, features: &Vec<String>) -> (r: String)
    ensures
        r@ == (if features@.len() == 0 {
            arch@
        } else {
            arch@ + " ("@ + join(texts(features@), ", "@) + ")"@
        }),
{
    if features.len() == 0 {
        arch.to_owned()
    } else {
        let start = around(arch, " (", join_texts(features, ", ").as_str());
        joined(start.as_str(), ")")
    }
}

// ---------------------------------------------------------------------------
// The report
// ---------------------------------------------------------------------------

/// The full comparison report.
pub open spec fn report_of(hw: HardwareSpec, results: Seq<BenchmarkResult>) -> Seq<char> {
    let start = "# Reverse Proxy Benchmark Report\n\n"@ + hardware_section(hw);
    if results.len() == 0 {
        start + "_No measurements were collected._\n"@
    } else {
        start + summary_section(results) + tail_section(results) + resource_section(results)
            + integrity_section(results)
    }
}

/// Render the full comparison report.
#[must_use]
pub fn generate_markdown_report(hw: &HardwareSpec, results: &Vec<BenchmarkResult>) -> (r: String)
    ensures
        r@ == report_of(*hw, results@),
{
    let mut md = joined("# Reverse Proxy Benchmark Report\n\n", hardware_markdown(hw).as_str());
    if results.len() == 0 {
        md.append("_No measurements were collected._\n");
        return md;
    }
    let summary = around(SUMMARY_HEAD, rows(Table::Summary, results).as_str(), "\n");
    let tail = around(TAIL_HEAD, rows(Table::Tail, results).as_str(), "\n");
    let resources = around(RESOURCE_HEAD, rows(Table::Resources, results).as_str(), "\n");
    md.append(summary.as_str());
    md.append(tail.as_str());
    md.append(resources.as_str());
    md.append(integrity_text(results).as_str());
    md
}

/// A run whose numbers cannot be trusted never goes unmentioned, and runs that can be
/// are said to be.
pub proof fn lemma_integrity_is_reported(results: Seq<BenchmarkResult>)
    ensures
        integrity_section(results) == CLEAN_RUNS@ || exists|i: int|
            0 <= i < results.len() && !(#[trigger] results[i]).clean(),
        (exists|i: int| 0 <= i < results.len() && !(#[trigger] results[i]).clean())
            ==> integrity_section(results) == UNCLEAN_HEAD@ + table_rows(Table::Unclean, results)
            + "\n"@,
{
}

/// The rows on pairs of a standard and a PGO build.
pub open spec fn pair_rows(
    results: Seq<BenchmarkResult>,
    pairs: Seq<(int, int)>,
    deltas: Seq<Seq<char>>,
) -> Seq<char>
    decreases pairs.len(),
{
    if pairs.len() == 0 {
        Seq::empty()
    } else {
        let n = pairs.len() - 1;
        pair_rows(results, pairs.drop_last(), deltas) + table_row(
            pair_cells(results[pairs[n].0], results[pairs[n].1], deltas[n]),
        )
    }
}

/// The cells on a standard and a PGO build.
pub open spec fn pair_cells(standard: BenchmarkResult, pgo: BenchmarkResult, delta: Seq<char>) -> Seq<
    Seq<char>,
> {
    seq![
        "c"@ + nat_text(standard.concurrency as nat) + " / "@ + bytes_text(
            standard.payload_bytes as nat,
        ) + " / "@ + standard.http_version@,
        standard.figures.rps_whole@,
        pgo.figures.rps_whole@,
        "**"@ + delta + "%**"@,
        micros_text(standard.latency_p99_us),
        micros_text(pgo.latency_p99_us),
    ]
}

/// The comparison of standard and PGO builds; nothing, where no runs can be paired.
pub open spec fn pgo_section(
    results: Seq<BenchmarkResult>,
    deltas: Seq<Seq<char>>,
    mean: Seq<char>,
) -> Seq<char> {
    let pairs = pairs_up_to(results, results.len() as int);
    if pairs.len() == 0 {
        Seq::empty()
    } else {
        PGO_HEAD@ + pair_rows(results, pairs, deltas) + "\nMean throughput change from PGO: **"@
            + mean + "%**\n\n"@
    }
}

fn pair_row(standard: &BenchmarkResult, pgo: &BenchmarkResult, delta: &str) -> (r: String)
    ensures
        r@ == table_row(pair_cells(*standard, *pgo, delta@)),
{
    let mut out: Vec<String> = Vec::new();
    let mut name = joined("c", decimal(standard.concurrency as u64).as_str());
    name.append(" / ");
    name.append(human_bytes(standard.payload_bytes).as_str());
    name.append(" / ");
    name.append(standard.http_version.as_str());
    out.push(name);
    out.push(standard.figures.rps_whole.as_str().to_owned());
    out.push(pgo.figures.rps_whole.as_str().to_owned());
    out.push(around("**", delta, "%**"));
    out.push(micros(standard.latency_p99_us));
    out.push(micros(pgo.latency_p99_us));
    assert(texts(out@) =~= pair_cells(*standard, *pgo, delta@));
    row_text(&out)
}

/// A comparison of standard and PGO builds. `deltas` holds the change of each pair of
/// [`pair_pgo_results`] in percent and `mean` their mean, both signed and to one
/// decimal.
#[must_use]
pub fn pgo_delta_section(
    results: &Vec<BenchmarkResult>,
    deltas: &Vec<String>,
    mean: &str,
) -> (r: String)
    requires
        deltas@.len() == pairs_up_to(results@, results@.len() as int).len(),
    ensures
        r@ == pgo_section(results@, texts(deltas@), mean@),
{
    let pairs = pair_pgo_results(results);
    let ghost all = place_pairs(pairs@);
    if pairs.len() == 0 {
        let out = String::new();
        assert(out@ =~= Seq::<char>::empty());
        return out;
    }
    let mut md = PGO_HEAD.to_owned();
    let mut i: usize = 0;
    let ghost changes = texts(deltas@);
    assert(all.take(0) =~= Seq::empty());
    assert(md@ =~= PGO_HEAD@ + pair_rows(results@, all.take(0), changes));
    while i < pairs.len()
        invariant
            i <= pairs@.len() == all.len(),
            all == place_pairs(pairs@),
            deltas@.len() == all.len(),
            changes == texts(deltas@),
            forall|k: int|
                0 <= k < pairs@.len() ==> (#[trigger] pairs@[k]).0 < results@.len() && pairs@[k].1
                    < results@.len(),
            md@ == PGO_HEAD@ + pair_rows(results@, all.take(i as int), changes),
        decreases pairs@.len() - i,
    {
        assert(all.take(i + 1).drop_last() =~= all.take(i as int));
        assert(all.take(i + 1)[i as int] == all[i as int]);
        let (s, p): (usize, usize) = pairs[i];
        assert(changes[i as int] == deltas@[i as int]@);
        let row = pair_row(&results[s], &results[p], deltas[i].as_str());
        md.append(row.as_str());
        i = i + 1;
        assert(md@ =~= PGO_HEAD@ + pair_rows(results@, all.take(i as int), changes));
    }
    assert(all.take(i as int) =~= all);
    md.append("\nMean throughput change from PGO: **");
    md.append(mean);
    md.append("%**\n\n");
    md
}

// ---------------------------------------------------------------------------
// Flamegraphs
// ---------------------------------------------------------------------------

/// A path without what names no file at its end: slashes, and dots that stand for the
/// directory itself.
pub open spec fn tidied(path: Seq<char>) -> Seq<char>
    decreases path.len(),
{
    let n = path.len();
    if n > 0 && path[n - 1] == '/' {
        tidied(path.drop_last())
    } else if n > 1 && path[n - 1] == '.' && path[n - 2] == '/' {
        tidied(path.drop_last().drop_last())
    } else {
        path
    }
}

/// What stands behind the last slash of a text.
pub open spec fn after_slash(s: Seq<char>) -> Seq<char>
    decreases s.len(),
{
    if s.len() == 0 || s.last() == '/' {
        Seq::empty()
    } else {
        after_slash(s.drop_last()).push(s.last())
    }
}

/// The name of the file that a path leads to, if it leads to one.
pub open spec fn file_name(path: Seq<char>) -> Option<Seq<char>> {
    let name = after_slash(tidied(path));
    if name.len() == 0 || name == "."@ || name == ".."@ {
        None
    } else {
        Some(name)
    }
}

/// Where the last point of a text stands; less than nought, if it has none.
pub open spec fn last_point(s: Seq<char>) -> int
    decreases s.len(),
{
    if s.len() == 0 {
        -1
    } else if s.last() == '.' {
        s.len() - 1
    } else {
        last_point(s.drop_last())
    }
}

/// A file name without its extension; a point at its beginning begins none.
pub open spec fn stem(name: Seq<char>) -> Seq<char> {
    if last_point(name) > 0 {
        name.take(last_point(name))
    } else {
        name
    }
}

/// The line that links a flamegraph, relative to the report next to its directory.
pub open spec fn link_line(path: Seq<char>) -> Seq<char> {
    match file_name(path) {
        Some(name) => "- ["@ + stem(name) + "](flamegraphs/"@ + name + ")\n"@,
        None => "- [profile]("@ + path + ")\n"@,
    }
}

/// The lines that link flamegraphs.
pub open spec fn link_lines(paths: Seq<Seq<char>>) -> Seq<char>
    decreases paths.len(),
{
    if paths.len() == 0 {
        Seq::empty()
    } else {
        link_lines(paths.drop_last()) + link_line(paths.last())
    }
}

proof fn lemma_after_slash(s: Seq<char>, k: int)
    requires
        0 <= k <= s.len(),
        k == 0 || s[k - 1] == '/',
        forall|i: int| k <= i < s.len() ==> s[i] != '/',
    ensures
        after_slash(s) == s.skip(k),
    decreases s.len(),
{
    if s.len() == k {
        assert(s.skip(k) =~= Seq::empty());
    } else {
        assert(s[s.len() - 1] != '/');
        lemma_after_slash(s.drop_last(), k);
        assert(s.drop_last().skip(k).push(s.last()) =~= s.skip(k));
    }
}

fn name_of_file(path: &str) -> (r: Option<String>)
    ensures
        r is Some <==> file_name(path@) is Some,
        r matches Some(name) ==> Some(name@) == file_name(path@),
{
    let chars = chars_of(path);
    let mut end: usize = chars.len();
    assert(path@.take(end as int) =~= path@);
    loop
        invariant
            end <= chars@.len(),
            chars@ == path@,
            tidied(path@.take(end as int)) == tidied(path@),
        ensures
            end <= chars@.len(),
            tidied(path@) == path@.take(end as int),
        decreases end,
    {
        let ghost t = path@.take(end as int);
        if end > 0 && chars[end - 1] == '/' {
            assert(t.drop_last() =~= path@.take(end - 1));
            end = end - 1;
        } else if end > 1 && chars[end - 1] == '.' && chars[end - 2] == '/' {
            assert(t.drop_last().drop_last() =~= path@.take(end - 2));
            end = end - 2;
        } else {
            break ;
        }
    }
    let ghost t = path@.take(end as int);
    let mut k: usize = end;
    while k > 0 && chars[k - 1] != '/'
        invariant
            k <= end <= chars@.len(),
            chars@ == path@,
            forall|i: int| k <= i < end ==> path@[i] != '/',
        decreases k,
    {
        k = k - 1;
    }
    proof {
        lemma_after_slash(t, k as int);
    }
    let name = string_of(&chars, k, end);
    assert(name@ =~= t.skip(k as int));
    if k == end || name.as_str().eq(".") || name.as_str().eq("..") {
        None
    } else {
        Some(name)
    }
}

fn stem_of(name: &str) -> (r: String)
    ensures
        r@ == stem(name@),
{
    let chars = chars_of(name);
    let mut k: usize = chars.len();
    assert(name@.take(k as int) =~= name@);
    while k > 0 && chars[k - 1] != '.'
        invariant
            k <= chars@.len(),
            chars@ == name@,
            last_point(name@.take(k as int)) == last_point(name@),
        decreases k,
    {
        assert(name@.take(k as int).drop_last() =~= name@.take(k - 1));
        k = k - 1;
    }
    if k > 1 {
        let r = string_of(&chars, 0, k - 1);
        assert(name@.take(k as int).last() == '.');
        assert(r@ =~= stem(name@));
        r
    } else {
        name.to_owned()
    }
}

/// Link every captured flamegraph, relative to the report; nothing, where there is
/// none.
#[must_use]
pub fn flamegraph_section(paths: &Vec<String>) -> (r: String)
    ensures
        r@ == (if paths@.len() == 0 {
            Seq::empty()
        } else {
            "## Flamegraphs\n\n"@ + link_lines(texts(paths@)) + "\n"@
        }),
{
    if paths.len() == 0 {
        let out = String::new();
        assert(out@ =~= Seq::<char>::empty());
        return out;
    }
    let mut md = "## Flamegraphs\n\n".to_owned();
    let ghost head = md@;
    let ghost all = texts(paths@);
    let mut i: usize = 0;
    assert(all.take(0) =~= Seq::empty());
    assert(md@ =~= head + link_lines(all.take(0)));
    while i < paths.len()
        invariant
            i <= paths@.len(),
            all == texts(paths@),
            md@ == head + link_lines(all.take(i as int)),
        decreases paths@.len() - i,
    {
        assert(all.take(i + 1).drop_last() =~= all.take(i as int));
        assert(all.take(i + 1).last() == paths@[i as int]@);
        let path = paths[i].as_str();
        let line = match name_of_file(path) {
            Some(name) => {
                let start = around("- [", stem_of(name.as_str()).as_str(), "](flamegraphs/");
                around(start.as_str(), name.as_str(), ")\n")
            },
            None => around("- [profile](", path, ")\n"),
        };
        md.append(line.as_str());
        i = i + 1;
        assert(md@ =~= head + link_lines(all.take(i as int)));
    }
    assert(all.take(i as int) =~= all);
    md.append("\n");
    md
}

/// A link never leaves the directory of the report: what a path leads through is
/// dropped.
pub proof fn lemma_links_are_relative(path: Seq<char>)
    ensures
        file_name(path) matches Some(name) ==> forall|i: int|
            0 <= i < name.len() ==> #[trigger] name[i] != '/',
{
    lemma_no_slash(tidied(path));
}

proof fn lemma_no_slash(s: Seq<char>)
    ensures
        forall|i: int| 0 <= i < after_slash(s).len() ==> #[trigger] after_slash(s)[i] != '/',
    decreases s.len(),
{
    if s.len() > 0 && s.last() != '/' {
        let before = after_slash(s.drop_last());
        lemma_no_slash(s.drop_last());
        assert forall|i: int| 0 <= i < after_slash(s).len() implies #[trigger] after_slash(s)[i]
            != '/' by {
            if i < before.len() {
                assert(after_slash(s)[i] == before[i]);
            }
        }
    }
}

// ---------------------------------------------------------------------------
// The directory of a run
// ---------------------------------------------------------------------------

/// A timestamp without the characters that break archives.
pub open spec fn flattened(timestamp: Seq<char>) -> Seq<char>
    decreases timestamp.len(),
{
    if timestamp.len() == 0 {
        Seq::empty()
    } else {
        let c = timestamp.last();
        let before = flattened(timestamp.drop_last());
        if c == ':' || c == '-' || c == 'Z' {
            before
        } else {
            before.push(c)
        }
    }
}

/// Directory layout of one benchmark run.
#[derive(Debug)]
pub struct RunDirectory {
    pub root: String,
}

impl RunDirectory {
    /// The directory of the run at a moment. Colons are legal on POSIX but not in many
    /// archive formats, so the timestamp is flattened for its name.
    #[must_use]
    pub fn at(base: &str, timestamp: &str) -> (r: Self)
        ensures
            r.root@ == path_join(base@, "run_"@ + flattened(timestamp@)),
    {
        let chars = chars_of(timestamp);
        let mut safe = String::new();
        let mut i: usize = 0;
        assert(timestamp@.take(0) =~= Seq::empty());
        assert(safe@ =~= flattened(timestamp@.take(0)));
        while i < chars.len()
            invariant
                i <= chars@.len(),
                chars@ == timestamp@,
                safe@ == flattened(timestamp@.take(i as int)),
            decreases chars@.len() - i,
        {
            assert(timestamp@.take(i + 1).drop_last() =~= timestamp@.take(i as int));
            let c = chars[i];
            if c != ':' && c != '-' && c != 'Z' {
                safe.push(c);
            }
            i = i + 1;
        }
        assert(timestamp@.take(i as int) =~= timestamp@);
        let name = joined("run_", safe.as_str());
        Self { root: join_path(base, name.as_str()) }
    }

    /// The report.
    #[must_use]
    pub fn report_md(&self) -> (r: String)
        ensures
            r@ == path_join(self.root@, "report.md"@),
    {
        join_path(self.root.as_str(), "report.md")
    }

    /// The environment.
    #[must_use]
    pub fn hardware_json(&self) -> (r: String)
        ensures
            r@ == path_join(self.root@, "hardware_spec.json"@),
    {
        join_path(self.root.as_str(), "hardware_spec.json")
    }

    /// The measurements.
    #[must_use]
    pub fn raw_metrics_json(&self) -> (r: String)
        ensures
            r@ == path_join(self.root@, "raw_metrics.json"@),
    {
        join_path(self.root.as_str(), "raw_metrics.json")
    }

    /// The measurements as a table.
    #[must_use]
    pub fn results_csv(&self) -> (r: String)
        ensures
            r@ == path_join(self.root@, "results.csv"@),
    {
        join_path(self.root.as_str(), "results.csv")
    }

    /// The flamegraphs.
    #[must_use]
    pub fn flamegraphs(&self) -> (r: String)
        ensures
            r@ == path_join(self.root@, "flamegraphs"@),
    {
        join_path(self.root.as_str(), "flamegraphs")
    }

    /// The plots.
    #[must_use]
    pub fn plots(&self) -> (r: String)
        ensures
            r@ == path_join(self.root@, "plots"@),
    {
        join_path(self.root.as_str(), "plots")
    }
}

/// The name of a run's directory holds nothing that breaks archives.
pub proof fn lemma_flattened_is_safe(timestamp: Seq<char>)
    ensures
        forall|i: int|
            0 <= i < flattened(timestamp).len() ==> #[trigger] flattened(timestamp)[i] != ':'
                && flattened(timestamp)[i] != '-',
    decreases timestamp.len(),
{
    if timestamp.len() > 0 {
        let before = flattened(timestamp.drop_last());
        lemma_flattened_is_safe(timestamp.drop_last());
        assert forall|i: int| 0 <= i < flattened(timestamp).len() implies #[trigger] flattened(
            timestamp,
        )[i] != ':' && flattened(timestamp)[i] != '-' by {
            if i < before.len() {
                assert(flattened(timestamp)[i] == before[i]);
            }
        }
    }
}

} // verus!

use vstd::prelude::*;

verus! {

use vstd::string::StrSliceExecFns;
use vstd::string::StringExecFns;

use crate::cleaning::track_files_for_deletion::DeletionMetaData;
use crate::configs::config::DataSizeUnit;
use crate::configs::config::PathConfig;
use crate::text::dec_str;
use crate::text::u64_to_string;

/// Bold terminal text: the text between the bold and reset escapes.
pub open spec fn bold_spec(text: Seq<char>) -> Seq<char> {
    "\x1b[1m"@ + text + "\x1b[0m"@
}

fn bold(text: &str) -> (r: String)
    ensures
        r@ == bold_spec(text@),
{
    let mut out = String::from_str("\x1b[1m");
    out.append(text);
    out.append("\x1b[0m");
    out
}

/// The lines between `from` and the end of `lines`, separated by newlines.
pub open spec fn join_from(lines: Seq<Seq<char>>, from: int) -> Seq<char>
    decreases lines.len() - from,
{
    if from < 0 || from >= lines.len() {
        Seq::empty()
    } else if from == lines.len() - 1 {
        lines[from]
    } else {
        lines[from] + seq!['\n'] + join_from(lines, from + 1)
    }
}

pub open spec fn string_views(v: Seq<String>) -> Seq<Seq<char>> {
    v.map_values(|s: String| s@)
}

/// Joins lines with newline separators, with no trailing newline.
fn join_lines(lines: &Vec<String>) -> (r: String)
    ensures
        r@ == join_from(string_views(lines@), 0),
{
    let ghost vs = string_views(lines@);
    let mut out = String::new();
    let mut i: usize = 0;
    proof {
        reveal_strlit("\n");
        assert("\n"@ =~= seq!['\n']);
    }
    while i < lines.len()
        invariant
            i <= lines@.len(),
            out@ + join_from(vs, i as int) == join_from(vs, 0),
            i == 0 ==> out@ =~= Seq::<char>::empty(),
        decreases lines@.len() - i,
    {
        out.append(lines[i].as_str());
        if i + 1 < lines.len() {
            out.append("\n");
        }
        i = i + 1;
    }
    proof {
        if lines@.len() == 0 {
            assert(out@ =~= Seq::<char>::empty());
        }
        assert(join_from(vs, lines@.len() as int) =~= Seq::<char>::empty());
        assert(out@ =~= out@ + join_from(vs, lines@.len() as int));
    }
    out
}

/// The banner above a cleaning overview.
pub open spec fn deletion_overview_header() -> Seq<Seq<char>> {
    seq![
        "========================================================="@,
        "\u{1f4c1} Cleaning Overview \u{1f4c1}"@,
        "---------------------------------------------------------"@,
    ]
}

fn deletion_overview_text() -> (r: Vec<String>)
    ensures
        string_views(r@) == deletion_overview_header(),
{
    let mut lines: Vec<String> = Vec::new();
    lines.push(String::from_str("========================================================="));
    lines.push(String::from_str("\u{1f4c1} Cleaning Overview \u{1f4c1}"));
    lines.push(String::from_str("---------------------------------------------------------"));
    proof {
        assert(string_views(lines@) =~= deletion_overview_header());
    }
    lines
}

/// The banner above a folder-size overview.
pub open spec fn size_overview_header() -> Seq<Seq<char>> {
    seq![
        "========================================================="@,
        "\u{1f4c1} Folder Size Overview \u{1f4c1}"@,
        "---------------------------------------------------------"@,
    ]
}

fn folder_size_overview_text() -> (r: Vec<String>)
    ensures
        string_views(r@) == size_overview_header(),
{
    let mut lines: Vec<String> = Vec::new();
    lines.push(String::from_str("========================================================="));
    lines.push(String::from_str("\u{1f4c1} Folder Size Overview \u{1f4c1}"));
    lines.push(String::from_str("---------------------------------------------------------"));
    proof {
        assert(string_views(lines@) =~= size_overview_header());
    }
    lines
}

/// The warning shown before a deletion is confirmed.
pub open spec fn deletion_warning_lines() -> Seq<Seq<char>> {
    seq![
        "---------------------------------------------------------"@,
        bold_spec("\u{1f6a8} WARNING: This action is irreversible \u{1f6a8}"@),
        "\u{1f6d1} Ensure you've backed up any important data before proceeding."@,
        "\u{1f50d} Review the information carefully before proceeding."@,
        "========================================================="@,
    ]
}

fn deletion_warning() -> (r: Vec<String>)
    ensures
        string_views(r@) == deletion_warning_lines(),
{
    let mut lines: Vec<String> = Vec::new();
    lines.push(String::from_str("---------------------------------------------------------"));
    lines.push(bold("\u{1f6a8} WARNING: This action is irreversible \u{1f6a8}"));
    lines.push(String::from_str(
        "\u{1f6d1} Ensure you've backed up any important data before proceeding.",
    ));
    lines.push(String::from_str(
        "\u{1f50d} Review the information carefully before proceeding.",
    ));
    lines.push(String::from_str("========================================================="));
    proof {
        assert(string_views(lines@) =~= deletion_warning_lines());
    }
    lines
}

/// The folder-path line, with the path quoted as the walker prints it.
pub open spec fn folder_path_line(c: PathConfig) -> Seq<char> {
    bold_spec("Folder path"@) + ": \""@ + c.directory@ + "\""@
}

fn format_folder_path(config: &PathConfig) -> (r: String)
    ensures
        r@ == folder_path_line(*config),
{
    let mut out = bold("Folder path");
    out.append(": \"");
    out.append(config.directory.as_str());
    out.append("\"");
    out
}

/// The total-size line.
pub open spec fn total_size_line(total_size: nat, unit: DataSizeUnit) -> Seq<char> {
    bold_spec("Total folder size"@) + ": "@ + unit.display_spec(total_size)
}

fn format_total_size(total_size: u64, unit: &DataSizeUnit) -> (r: String)
    ensures
        r@ == total_size_line(total_size as nat, *unit),
{
    let mut out = bold("Total folder size");
    out.append(": ");
    let shown = unit.display_total_size(total_size);
    out.append(shown.as_str());
    out
}

/// `N files, M directories`, in decimal.
pub open spec fn counts_text(meta: DeletionMetaData) -> Seq<char> {
    dec_str(meta.file_count as nat) + " files, "@ + dec_str(meta.dir_count as nat)
        + " directories"@
}

fn file_directory_counts(deletion_metadata: &DeletionMetaData) -> (r: String)
    ensures
        r@ == counts_text(*deletion_metadata),
{
    let mut out = u64_to_string(deletion_metadata.file_count as u64);
    out.append(" files, ");
    let dirs = u64_to_string(deletion_metadata.dir_count as u64);
    out.append(dirs.as_str());
    out.append(" directories");
    out
}

/// The line describing what is scheduled for deletion.
pub open spec fn deletion_size_line(meta: DeletionMetaData, unit: DataSizeUnit) -> Seq<char> {
    bold_spec("Data scheduled for deletion"@) + ": "@ + counts_text(meta) + " - "@ + bold_spec(
        unit.display_spec(meta.deletion_size as nat),
    )
}

fn format_deletion_size(deletion_metadata: &DeletionMetaData, unit: &DataSizeUnit) -> (r: String)
    ensures
        r@ == deletion_size_line(*deletion_metadata, *unit),
{
    let counts = file_directory_counts(deletion_metadata);
    let mut out = bold("Data scheduled for deletion");
    out.append(": ");
    out.append(counts.as_str());
    out.append(" - ");
    let shown = unit.display_total_size(deletion_metadata.deletion_size);
    let shown_bold = bold(shown.as_str());
    out.append(shown_bold.as_str());
    out
}

/// The line giving the counts and size of everything scanned.
pub open spec fn file_folder_counts_line(meta: DeletionMetaData, unit: DataSizeUnit) -> Seq<char> {
    bold_spec("Total Size of files and directories"@) + ": "@ + counts_text(meta) + " - "@
        + bold_spec(unit.display_spec(meta.deletion_size as nat))
}

fn format_file_folder_counts(deletion_metadata: &DeletionMetaData, unit: &DataSizeUnit) -> (r:
    String)
    ensures
        r@ == file_folder_counts_line(*deletion_metadata, *unit),
{
    let counts = file_directory_counts(deletion_metadata);
    let mut out = bold("Total Size of files and directories");
    out.append(": ");
    out.append(counts.as_str());
    out.append(" - ");
    let shown = unit.display_total_size(deletion_metadata.deletion_size);
    let shown_bold = bold(shown.as_str());
    out.append(shown_bold.as_str());
    out
}

/// Relies on chrono: `DateTime::from_timestamp` turns a Unix timestamp into
/// a UTC date-time (`None` outside chrono's range), and formatting with
/// `%Y-%m-%d %H:%M:%S %Z` in the `Local` zone renders it for the machine's
/// time zone. The text depends on that time zone, so nothing is promised
/// about it.
#[verifier::external_body]
fn local_time_text(epoch_secs: u64) -> (r: Option<String>) {
    let utc = chrono::DateTime::from_timestamp(epoch_secs as i64, 0)?;
    let local = utc.with_timezone(&chrono::Local);
    Some(local.format("%Y-%m-%d %H:%M:%S %Z").to_string())
}

/// The last-modified line: its timestamp text comes from the machine's time
/// zone, so it is left open here.
pub open spec fn last_modified_line(timestamp_text: Seq<char>) -> Seq<char> {
    bold_spec("Last modified date"@) + ": "@ + timestamp_text
}

fn format_last_modified(last_modified: u64) -> (r: String)
    ensures
        exists|ts: Seq<char>| r@ == last_modified_line(ts),
{
    let rendered = match local_time_text(last_modified) {
        Some(text) => text,
        None => String::new(),
    };
    let mut out = bold("Last modified date");
    out.append(": ");
    out.append(rendered.as_str());
    proof {
        assert(out@ == last_modified_line(rendered@));
    }
    out
}

/// The extensions of a list, each with a leading dot, comma-separated and
/// parenthesised.
pub open spec fn exts_from(l: Seq<String>, from: int) -> Seq<char>
    decreases l.len() - from,
{
    if from < 0 || from >= l.len() {
        Seq::empty()
    } else if from == l.len() - 1 {
        "."@ + l[from]@
    } else {
        "."@ + l[from]@ + ", "@ + exts_from(l, from + 1)
    }
}

pub open spec fn extensions_string_spec(l: Seq<String>) -> Seq<char> {
    "("@ + exts_from(l, 0) + ")"@
}

fn create_extensions_string(extensions: &Vec<String>) -> (r: String)
    ensures
        r@ == extensions_string_spec(extensions@),
{
    let mut body = String::new();
    let mut i: usize = 0;
    while i < extensions.len()
        invariant
            i <= extensions@.len(),
            body@ + exts_from(extensions@, i as int) == exts_from(extensions@, 0),
            i == 0 ==> body@ =~= Seq::<char>::empty(),
        decreases extensions@.len() - i,
    {
        body.append(".");
        body.append(extensions[i].as_str());
        if i + 1 < extensions.len() {
            body.append(", ");
        }
        i = i + 1;
    }
    proof {
        if extensions@.len() == 0 {
            assert(body@ =~= Seq::<char>::empty());
        }
        assert(exts_from(extensions@, extensions@.len() as int) =~= Seq::<char>::empty());
        assert(body@ =~= body@ + exts_from(extensions@, extensions@.len() as int));
    }
    let mut out = String::from_str("(");
    out.append(body.as_str());
    out.append(")");
    out
}

/// The lines describing the extension rules: one for each list the
/// configuration carries, each value quoted as printed.
pub open spec fn extension_lines(c: PathConfig) -> Seq<Seq<char>> {
    (match c.extensions_to_delete {
        Some(del) => seq![
            bold_spec("Extensions marked for deletion"@) + ": \""@ + extensions_string_spec(del@)
                + "\""@,
        ],
        None => Seq::empty(),
    }) + (match c.extensions_to_keep {
        Some(keep) => seq![
            bold_spec("Extensions to keep"@) + ": \""@ + extensions_string_spec(keep@) + "\""@,
        ],
        None => Seq::empty(),
    })
}

fn format_extensions(config: &PathConfig) -> (r: Vec<String>)
    ensures
        string_views(r@) == extension_lines(*config),
{
    let mut extension_texts: Vec<String> = Vec::new();
    match &config.extensions_to_delete {
        Some(exts) => {
            let extensions = create_extensions_string(exts);
            let mut line = bold("Extensions marked for deletion");
            line.append(": \"");
            line.append(extensions.as_str());
            line.append("\"");
            extension_texts.push(line);
        },
        None => {},
    }
    match &config.extensions_to_keep {
        Some(exts) => {
            let extensions = create_extensions_string(exts);
            let mut line = bold("Extensions to keep");
            line.append(": \"");
            line.append(extensions.as_str());
            line.append("\"");
            extension_texts.push(line);
        },
        None => {},
    }
    proof {
        assert(string_views(extension_texts@) =~= extension_lines(*config));
    }
    extension_texts
}

/// Every line of the deletion overview, in order: the banner, the folder's
/// path, sizes and counts, the last-modified line with the given timestamp
/// text, the extension rules, and the warning.
pub open spec fn deletion_overview_lines(
    c: PathConfig,
    meta: DeletionMetaData,
    unit: DataSizeUnit,
    ts: Seq<char>,
) -> Seq<Seq<char>> {
    deletion_overview_header() + seq![
        folder_path_line(c),
        total_size_line(meta.folder_size as nat, unit),
        deletion_size_line(meta, unit),
        last_modified_line(ts),
    ] + extension_lines(c) + deletion_warning_lines()
}

/// The deletion overview as one newline-separated text.
pub open spec fn deletion_overview_spec(
    c: PathConfig,
    meta: DeletionMetaData,
    unit: DataSizeUnit,
    ts: Seq<char>,
) -> Seq<char> {
    join_from(deletion_overview_lines(c, meta, unit, ts), 0)
}

/// Renders the overview shown before a deletion is confirmed. The timestamp
/// in the last-modified line comes from the machine's time zone; everything
/// else is a function of the arguments.
pub fn generate_deletion_overview_text(
    config: &PathConfig,
    deletion_metadata: DeletionMetaData,
    unit: &DataSizeUnit,
) -> (r: String)
    ensures
        exists|ts: Seq<char>| r@ == deletion_overview_spec(*config, deletion_metadata, *unit, ts),
{
    let mut deletion_overview: Vec<String> = Vec::new();
    let header = deletion_overview_text();
    append_lines(&mut deletion_overview, header);
    deletion_overview.push(format_folder_path(config));
    deletion_overview.push(format_total_size(deletion_metadata.folder_size, unit));
    deletion_overview.push(format_deletion_size(&deletion_metadata, unit));
    let lm = format_last_modified(deletion_metadata.last_modified_time);
    let ghost ts = choose|ts: Seq<char>| lm@ == last_modified_line(ts);
    deletion_overview.push(lm);
    let exts = format_extensions(config);
    append_lines(&mut deletion_overview, exts);
    let warning = deletion_warning();
    append_lines(&mut deletion_overview, warning);
    proof {
        assert(string_views(deletion_overview@) =~~= deletion_overview_lines(
            *config,
            deletion_metadata,
            *unit,
            ts,
        ));
    }
    let result = join_lines(&deletion_overview);
    proof {
        assert(result@ == deletion_overview_spec(*config, deletion_metadata, *unit, ts));
    }
    result
}

/// Every line of the size overview, in order.
pub open spec fn size_overview_lines(
    c: PathConfig,
    meta: DeletionMetaData,
    unit: DataSizeUnit,
    ts: Seq<char>,
) -> Seq<Seq<char>> {
    size_overview_header() + seq![
        folder_path_line(c),
        file_folder_counts_line(meta, unit),
        last_modified_line(ts),
    ] + extension_lines(c)
}

/// The size overview as one newline-separated text.
pub open spec fn size_overview_spec(
    c: PathConfig,
    meta: DeletionMetaData,
    unit: DataSizeUnit,
    ts: Seq<char>,
) -> Seq<char> {
    join_from(size_overview_lines(c, meta, unit, ts), 0)
}

/// Renders the overview of a folder's size and contents.
pub fn generate_size_overview_text(
    config: &PathConfig,
    metadata: DeletionMetaData,
    unit: &DataSizeUnit,
) -> (r: String)
    ensures
        exists|ts: Seq<char>| r@ == size_overview_spec(*config, metadata, *unit, ts),
{
    let mut size_overview: Vec<String> = Vec::new();
    let header = folder_size_overview_text();
    append_lines(&mut size_overview, header);
    size_overview.push(format_folder_path(config));
    size_overview.push(format_file_folder_counts(&metadata, unit));
    let lm = format_last_modified(metadata.last_modified_time);
    let ghost ts = choose|ts: Seq<char>| lm@ == last_modified_line(ts);
    size_overview.push(lm);
    let exts = format_extensions(config);
    append_lines(&mut size_overview, exts);
    proof {
        assert(string_views(size_overview@) =~~= size_overview_lines(
            *config,
            metadata,
            *unit,
            ts,
        ));
    }
    let result = join_lines(&size_overview);
    proof {
        assert(result@ == size_overview_spec(*config, metadata, *unit, ts));
    }
    result
}

/// Moves every line of `extra` to the end of `lines`.
fn append_lines(lines: &mut Vec<String>, extra: Vec<String>)
    ensures
        final(lines)@ == old(lines)@ + extra@,
{
    let ghost orig = old(lines)@;
    let ghost ex = extra@;
    let mut rest = extra;
    proof {
        assert(ex.skip(0) =~= ex);
        assert(ex.take(0) =~= Seq::<String>::empty());
        assert(lines@ =~= orig + ex.take(0));
    }
    while rest.len() > 0
        invariant
            rest@.len() <= ex.len(),
            rest@ == ex.skip(ex.len() - rest@.len()),
            lines@ == orig + ex.take(ex.len() - rest@.len()),
        decreases rest@.len(),
    {
        let ghost k = ex.len() - rest@.len();
        let ghost r0 = rest@;
        let line = rest.remove(0);
        proof {
            assert(rest@ =~= r0.drop_first());
            assert(line == ex[k]);
            assert(rest@ =~= ex.skip(k + 1));
        }
        lines.push(line);
        proof {
            assert(ex.take(k + 1) =~= ex.take(k).push(ex[k]));
            assert(lines@ =~= orig + ex.take(k + 1));
        }
    }
    proof {
        assert(ex.take(ex.len() as int) =~= ex);
    }
}

} // verus!

//! The sample configuration: three tab-separated columns per sample.

use vstd::prelude::*;
use vstd::string::*;
use crate::cli::Config;
use crate::text::{decimal, decimal_text, names_of};

verus! {

/// Why no configuration can be written.
#[derive(Clone, Copy, Debug, PartialEq, Eq, Structural)]
pub enum ConfigError {
    /// The variant file has `samples` sample columns, and `depth_files`
    /// depth files were given.
    CountMismatch { samples: usize, depth_files: usize },
}

/// A sample column of the variant file: its name, and the name's stem
/// where it has one. The stem is the display id under which the sample is
/// reported; a column without a stem is reported under its name.
#[derive(Clone, Debug, PartialEq, Eq)]
pub struct VcfColumn {
    pub name: String,
    pub stem: Option<String>,
}

/// The two comment lines at the head of a configuration.
pub open spec fn header_text() -> Seq<char> {
    "#Rearrange to make files and columns correspond\n#SAMPLE_ID\tVCF_COLUMN\tDEPTH_FILE"@
}

/// One line of a configuration.
pub open spec fn config_line(sample_id: Seq<char>, column: Seq<char>, depth_file: Seq<char>) -> Seq<
    char,
> {
    sample_id + seq!['\t'] + column + seq!['\t'] + depth_file + seq!['\n']
}

/// The lines for the first `n` samples.
pub open spec fn config_lines(
    sample_ids: Seq<Seq<char>>,
    vcf_samples: Seq<Seq<char>>,
    depth_files: Seq<Seq<char>>,
    n: nat,
) -> Seq<char>
    decreases n,
{
    if n == 0 {
        Seq::empty()
    } else {
        config_lines(sample_ids, vcf_samples, depth_files, (n - 1) as nat) + config_line(
            sample_ids[n - 1],
            vcf_samples[n - 1],
            depth_files[n - 1],
        )
    }
}

/// The whole configuration: the header, then one line per sample id with
/// the column and the depth file at the same position.
pub open spec fn config_text(
    sample_ids: Seq<Seq<char>>,
    vcf_samples: Seq<Seq<char>>,
    depth_files: Seq<Seq<char>>,
) -> Seq<char> {
    header_text() + seq!['\n'] + config_lines(
        sample_ids,
        vcf_samples,
        depth_files,
        sample_ids.len(),
    )
}

/// The text of the configuration for `sample_ids`.
pub fn write_config_file(
    sample_ids: &Vec<String>,
    vcf_samples: &Vec<String>,
    depth_files: &Vec<String>,
) -> (out: String)
    requires
        sample_ids.len() <= vcf_samples.len(),
        sample_ids.len() <= depth_files.len(),
    ensures
        out@ == config_text(names_of(sample_ids@), names_of(vcf_samples@), names_of(depth_files@)),
{
    let mut out = String::from_str(
        "#Rearrange to make files and columns correspond\n#SAMPLE_ID\tVCF_COLUMN\tDEPTH_FILE",
    );
    out.push('\n');
    let ghost head = out@;
    assert(head =~= header_text() + seq!['\n']);
    let mut i: usize = 0;
    while i < sample_ids.len()
        invariant
            i <= sample_ids.len(),
            sample_ids.len() <= vcf_samples.len(),
            sample_ids.len() <= depth_files.len(),
            out@ == head + config_lines(
                names_of(sample_ids@),
                names_of(vcf_samples@),
                names_of(depth_files@),
                i as nat,
            ),
        decreases sample_ids.len() - i,
    {
        let ghost before = out@;
        out.append(sample_ids[i].as_str());
        out.push('\t');
        out.append(vcf_samples[i].as_str());
        out.push('\t');
        out.append(depth_files[i].as_str());
        out.push('\n');
        assert(out@ =~= before + config_line(
            sample_ids@[i as int]@,
            vcf_samples@[i as int]@,
            depth_files@[i as int]@,
        ));
        assert(out@ =~= head + config_lines(
            names_of(sample_ids@),
            names_of(vcf_samples@),
            names_of(depth_files@),
            (i + 1) as nat,
        ));
        i += 1;
    }
    out
}

/// The display id of a column: its stem, or its whole name where the
/// name has no stem.
pub open spec fn display_id(column: VcfColumn) -> Seq<char> {
    match column.stem {
        Some(stem) => stem@,
        None => column.name@,
    }
}

/// The display ids of a run: that of each column, position by position.
pub open spec fn stems_of(columns: Seq<VcfColumn>) -> Seq<Seq<char>> {
    columns.map_values(|c: VcfColumn| display_id(c))
}

/// The names of `columns`, position by position.
pub open spec fn column_names(columns: Seq<VcfColumn>) -> Seq<Seq<char>> {
    columns.map_values(|c: VcfColumn| c.name@)
}

/// The display ids of a run, one per column.
pub fn sample_ids_of(columns: &Vec<VcfColumn>) -> (out: Vec<String>)
    ensures
        names_of(out@) == stems_of(columns@),
        out@.len() == columns@.len(),
{
    let mut out: Vec<String> = Vec::new();
    let mut i: usize = 0;
    while i < columns.len()
        invariant
            i <= columns.len(),
            out@.len() == i,
            forall|j: int| 0 <= j < i ==> (#[trigger] out@[j])@ == display_id(columns@[j]),
        decreases columns.len() - i,
    {
        match &columns[i].stem {
            Some(stem) => {
                out.push(stem.clone());
            },
            None => {
                out.push(columns[i].name.clone());
            },
        }
        i += 1;
    }
    assert(names_of(out@) =~= stems_of(columns@));
    out
}

/// The names of `columns`, copied.
pub fn names_of_columns(columns: &Vec<VcfColumn>) -> (out: Vec<String>)
    ensures
        names_of(out@) == column_names(columns@),
        out@.len() == columns@.len(),
{
    let mut out: Vec<String> = Vec::new();
    let mut i: usize = 0;
    while i < columns.len()
        invariant
            i <= columns.len(),
            out@.len() == i,
            forall|j: int| 0 <= j < i ==> (#[trigger] out@[j])@ == columns@[j].name@,
        decreases columns.len() - i,
    {
        out.push(columns[i].name.clone());
        i += 1;
    }
    assert(names_of(out@) =~= column_names(columns@));
    out
}

/// What the configuration command writes for the sample columns of a
/// variant file: an error, and no text, exactly when the number of depth
/// files is not the number of sample columns; else the configuration, with
/// one line per column: its display id, its name, and the depth file at
/// the same position.
pub fn config_command(options: &Config, columns: &Vec<VcfColumn>) -> (out: Result<
    String,
    ConfigError,
>)
    ensures
        out is Err <==> options.depth_files@.len() != columns@.len(),
        match out {
            Ok(text) => {
                &&& options.depth_files@.len() == columns@.len()
                &&& text@ == config_text(
                    stems_of(columns@),
                    column_names(columns@),
                    names_of(options.depth_files@),
                )
            },
            Err(error) => {
                &&& options.depth_files@.len() != columns@.len()
                &&& error == (ConfigError::CountMismatch {
                    samples: columns@.len() as usize,
                    depth_files: options.depth_files@.len() as usize,
                })
            },
        },
{
    if options.depth_files.len() != columns.len() {
        return Err(
            ConfigError::CountMismatch {
                samples: columns.len(),
                depth_files: options.depth_files.len(),
            },
        );
    }
    let sample_ids = sample_ids_of(columns);
    let names = names_of_columns(columns);
    Ok(write_config_file(&sample_ids, &names, &options.depth_files))
}

/// The sentence that reports a mismatch of counts.
pub open spec fn mismatch_text(samples: usize, depth_files: usize) -> Seq<char> {
    "Length of samples ("@ + decimal(samples as nat) + ") in VCF file and number of Depth files ("@
        + decimal(depth_files as nat) + ") is not the same"@
}

impl ConfigError {
    /// The error in words, naming both counts.
    pub fn message(&self) -> (out: String)
        ensures
            match *self {
                ConfigError::CountMismatch { samples, depth_files } => out@ == mismatch_text(
                    samples,
                    depth_files,
                ),
            },
    {
        match self {
            ConfigError::CountMismatch { samples, depth_files } => {
                let mut out = String::from_str("Length of samples (");
                out.append(decimal_text(*samples as u64).as_str());
                out.append(") in VCF file and number of Depth files (");
                out.append(decimal_text(*depth_files as u64).as_str());
                out.append(") is not the same");
                out
            },
        }
    }
}

} // verus!

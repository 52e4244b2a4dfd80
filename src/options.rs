use vstd::prelude::*;
use vstd::string::StringExecFns;

use crate::assembly::{chrom_key, strip_chr};

verus! {

/// std's `PathBuf`, carried unopened in a run's settings.
#[verifier::external_type_specification]
#[verifier::external_body]
pub struct ExPathBuf(std::path::PathBuf);

/// A run's settings, owned, with the paths of its two output files.
#[derive(Debug)]
pub struct Options {
    pub cov_output_location: std::path::PathBuf,
    pub features_output_location: std::path::PathBuf,
    pub analysis_accession_id: String,
    pub assembly_name: String,
    pub connection_string: String,
    pub bucket_size: u32,
    pub chromo: Option<String>,
}

/// The name of an output file: `level1.<extension>` for a whole-genome run,
/// `level2_<chromosome>.<extension>` for a single-chromosome run, the
/// chromosome named without its `chr`.
pub open spec fn spec_output_file_name(chromo: Option<Seq<char>>, extension: Seq<char>) -> Seq<char> {
    match chromo {
        Some(c) => "level2_"@ + chrom_key(c) + "."@ + extension,
        None => "level1."@ + extension,
    }
}

/// Names an output file of a run.
pub fn output_file_name(chromo: Option<&str>, extension: &str) -> (r: String)
    ensures
        r@ == spec_output_file_name(
            match chromo {
                Some(c) => Some(c@),
                None => None,
            },
            extension@,
        ),
{
    match chromo {
        Some(c) => {
            let mut name = "level2_".to_owned();
            name.append(strip_chr(c));
            name.append(".");
            name.append(extension);
            name
        },
        None => {
            let mut name = "level1.".to_owned();
            name.append(extension);
            name
        },
    }
}

} // verus!

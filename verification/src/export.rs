use crate::ascii::{
    ascii_lowercase, is_lowercase_word, lemma_ascii_lowercase_idempotent, lemma_lowercase_is_spelling, lowercase_equals,
    spells_ignoring_case,
};
use vstd::prelude::*;

verus! {

/// The file formats that evidence can be exported to.
#[derive(Debug, Clone, Copy, PartialEq, Eq)]
pub enum EvidenceExportFormat {
    Json,
    Csv,
    Pdf,
}

/// A format name that is not one of `json`, `csv`, `pdf` in any ASCII case.
#[derive(Debug, Clone, PartialEq, Eq)]
pub struct UnsupportedExportFormat {
    pub value: String,
}

/// The format that a name selects, case-insensitively in ASCII.
pub open spec fn spec_export_format(value: Seq<char>) -> Option<EvidenceExportFormat> {
    let lower = ascii_lowercase(value);
    if lower == seq!['j', 's', 'o', 'n'] {
        Some(EvidenceExportFormat::Json)
    } else if lower == seq!['c', 's', 'v'] {
        Some(EvidenceExportFormat::Csv)
    } else if lower == seq!['p', 'd', 'f'] {
        Some(EvidenceExportFormat::Pdf)
    } else {
        None
    }
}

/// Format names are read without regard to ASCII case: a name selects what its ASCII
/// lowercase selects.
pub proof fn lemma_export_format_ignores_case(value: Seq<char>)
    ensures
        spec_export_format(value) == spec_export_format(ascii_lowercase(value)),
{
    lemma_ascii_lowercase_idempotent(value);
}

/// A name selects JSON, CSV or PDF exactly when it spells `json`, `csv` or `pdf` in any mix
/// of ASCII cases, and selects nothing otherwise.
pub proof fn lemma_export_format_of_spellings(value: Seq<char>)
    ensures
        (spec_export_format(value) == Some(EvidenceExportFormat::Json)) == spells_ignoring_case(
            value,
            seq!['j', 's', 'o', 'n'],
        ),
        (spec_export_format(value) == Some(EvidenceExportFormat::Csv)) == spells_ignoring_case(
            value,
            seq!['c', 's', 'v'],
        ),
        (spec_export_format(value) == Some(EvidenceExportFormat::Pdf)) == spells_ignoring_case(
            value,
            seq!['p', 'd', 'f'],
        ),
        (spec_export_format(value) is None) == !(spells_ignoring_case(value, seq!['j', 's', 'o', 'n'])
            || spells_ignoring_case(value, seq!['c', 's', 'v']) || spells_ignoring_case(
            value,
            seq!['p', 'd', 'f'],
        )),
{
    let json = seq!['j', 's', 'o', 'n'];
    let csv = seq!['c', 's', 'v'];
    let pdf = seq!['p', 'd', 'f'];
    assert(is_lowercase_word(json));
    assert(is_lowercase_word(csv));
    assert(is_lowercase_word(pdf));
    lemma_lowercase_is_spelling(value, json);
    lemma_lowercase_is_spelling(value, csv);
    lemma_lowercase_is_spelling(value, pdf);
    assert(json != csv) by {
        assert(json.len() != csv.len());
    }
    assert(json != pdf) by {
        assert(json.len() != pdf.len());
    }
    assert(csv != pdf) by {
        assert(csv[0] != pdf[0]);
    }
}

impl EvidenceExportFormat {
    /// Reads a format name, ignoring ASCII case; any other name is refused with the name.
    pub fn parse(value: &str) -> (res: Result<EvidenceExportFormat, UnsupportedExportFormat>)
        ensures
            match res {
                Ok(format) => spec_export_format(value@) == Some(format),
                Err(e) => spec_export_format(value@) is None && e.value@ == value@,
            },
    {
        proof {
            reveal_strlit("json");
            reveal_strlit("csv");
            reveal_strlit("pdf");
            assert("json"@ =~= seq!['j', 's', 'o', 'n']);
            assert("csv"@ =~= seq!['c', 's', 'v']);
            assert("pdf"@ =~= seq!['p', 'd', 'f']);
        }
        if lowercase_equals(value, "json") {
            Ok(EvidenceExportFormat::Json)
        } else if lowercase_equals(value, "csv") {
            Ok(EvidenceExportFormat::Csv)
        } else if lowercase_equals(value, "pdf") {
            Ok(EvidenceExportFormat::Pdf)
        } else {
            Err(UnsupportedExportFormat { value: value.to_owned() })
        }
    }
}

impl std::str::FromStr for EvidenceExportFormat {
    type Err = UnsupportedExportFormat;

    /// Reads a format name as [`EvidenceExportFormat::parse`] does.
    fn from_str(value: &str) -> (res: Result<EvidenceExportFormat, UnsupportedExportFormat>)
        ensures
            match res {
                Ok(format) => spec_export_format(value@) == Some(format),
                Err(e) => spec_export_format(value@) is None && e.value@ == value@,
            },
    {
        EvidenceExportFormat::parse(value)
    }
}

} // verus!

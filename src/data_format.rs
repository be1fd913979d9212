//! The format in which plot data is written.

use vstd::prelude::*;
use crate::region::ParseError;

verus! {

/// How the reference, read, highlight and coverage data are written out.
#[derive(Debug, Clone, Copy, PartialEq, Eq, Structural)]
pub enum DataFormat {
    Json,
    Tsv,
}

impl DataFormat {
    /// The format named `json` or `tsv`.
    pub fn from_str(s: &str) -> (r: Result<DataFormat, ParseError>)
        ensures
            s@ == "json"@ ==> r == Ok::<DataFormat, ParseError>(DataFormat::Json),
            s@ == "tsv"@ ==> r == Ok::<DataFormat, ParseError>(DataFormat::Tsv),
            s@ != "json"@ && s@ != "tsv"@ ==> r == Err::<DataFormat, ParseError>(ParseError::UnknownFormat),
    {
        proof {
            reveal_strlit("json");
            reveal_strlit("tsv");
            assert("json"@.len() != "tsv"@.len());
        }
        let given = s.to_owned();
        if given == String::from_str("json") {
            Ok(DataFormat::Json)
        } else if given == String::from_str("tsv") {
            Ok(DataFormat::Tsv)
        } else {
            Err(ParseError::UnknownFormat)
        }
    }

    /// The name of the format, also the file extension it is written with.
    pub fn to_string(&self) -> (r: String)
        ensures
            *self == DataFormat::Json ==> r@ == "json"@,
            *self == DataFormat::Tsv ==> r@ == "tsv"@,
    {
        match self {
            DataFormat::Json => String::from_str("json"),
            DataFormat::Tsv => String::from_str("tsv"),
        }
    }
}

impl Default for DataFormat {
    fn default() -> (r: DataFormat)
        ensures
            r == DataFormat::Json,
    {
        DataFormat::Json
    }
}

} // verus!

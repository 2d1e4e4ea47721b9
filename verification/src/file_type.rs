//! Readable file types and their extensions.

use vstd::prelude::*;
use vstd::string::StringExecFns;

use crate::errors::DataFusionError;

verus! {

/// What `str::to_uppercase` returns for a given character sequence:
/// its Unicode uppercase. The result depends on the characters alone.
pub uninterp spec fn upper_of(s: Seq<char>) -> Seq<char>;

/// Relies on `str::to_uppercase`: the returned string is the Unicode
/// uppercase of the input, a function of the input's characters alone.
#[verifier::external_body]
fn to_uppercase_string(s: &str) -> (r: String)
    ensures
        r@ == upper_of(s@),
{
    s.to_uppercase()
}

/// Defines a `FileType`'s extension.
pub trait GetExt {
    /// The extension as a sequence of characters, for specification.
    spec fn ext_spec(&self) -> Seq<char>;

    /// File extension getter.
    fn get_ext(&self) -> (s: String)
        ensures
            s@ == self.ext_spec(),
    ;
}

/// Readable file type.
#[derive(Debug, Clone, PartialEq, Eq, Hash, Structural)]
pub enum FileType {
    /// Apache Arrow file
    Arrow,
    /// Apache Avro file
    Avro,
    /// Apache Parquet file
    Parquet,
    /// CSV file
    Csv,
    /// JSON file
    Json,
}

impl GetExt for FileType {
    open spec fn ext_spec(&self) -> Seq<char> {
        match *self {
            FileType::Arrow => ".arrow"@,
            FileType::Avro => ".avro"@,
            FileType::Parquet => ".parquet"@,
            FileType::Csv => ".csv"@,
            FileType::Json => ".json"@,
        }
    }

    fn get_ext(&self) -> (s: String) {
        match self {
            FileType::Arrow => ".arrow".to_owned(),
            FileType::Avro => ".avro".to_owned(),
            FileType::Parquet => ".parquet".to_owned(),
            FileType::Csv => ".csv".to_owned(),
            FileType::Json => ".json".to_owned(),
        }
    }
}

impl FileType {
    /// The lowercase display name of the file type.
    pub open spec fn display_spec(self) -> Seq<char> {
        match self {
            FileType::Csv => "csv"@,
            FileType::Json => "json"@,
            FileType::Parquet => "parquet"@,
            FileType::Avro => "avro"@,
            FileType::Arrow => "arrow"@,
        }
    }

    /// The lowercase display name, as a `String`.
    pub fn display_string(&self) -> (s: String)
        ensures
            s@ == self.display_spec(),
    {
        match self {
            FileType::Csv => "csv".to_owned(),
            FileType::Json => "json".to_owned(),
            FileType::Parquet => "parquet".to_owned(),
            FileType::Avro => "avro".to_owned(),
            FileType::Arrow => "arrow".to_owned(),
        }
    }

    /// Parses a file type from a name, ignoring case: the name's
    /// Unicode uppercase must be one of the known spellings. The
    /// error message carries the uppercased name.
    pub fn from_str(s: &str) -> (r: Result<FileType, DataFusionError>)
        ensures
            r == Ok::<FileType, DataFusionError>(FileType::Arrow) <==> upper_of(s@) == "ARROW"@,
            r == Ok::<FileType, DataFusionError>(FileType::Avro) <==> upper_of(s@) == "AVRO"@,
            r == Ok::<FileType, DataFusionError>(FileType::Parquet) <==> upper_of(s@)
                == "PARQUET"@,
            r == Ok::<FileType, DataFusionError>(FileType::Csv) <==> upper_of(s@) == "CSV"@,
            r == Ok::<FileType, DataFusionError>(FileType::Json) <==> (upper_of(s@) == "JSON"@
                || upper_of(s@) == "NDJSON"@),
            r is Err ==> (r->Err_0 matches DataFusionError::NotImplemented(m) && m@
                == "Unknown FileType: "@ + upper_of(s@)),
    {
        proof {
            reveal_strlit("ARROW");
            reveal_strlit("AVRO");
            reveal_strlit("PARQUET");
            reveal_strlit("CSV");
            reveal_strlit("JSON");
            reveal_strlit("NDJSON");
            assert("ARROW"@.len() == 5);
            assert("AVRO"@.len() == 4);
            assert("PARQUET"@.len() == 7);
            assert("CSV"@.len() == 3);
            assert("JSON"@.len() == 4);
            assert("NDJSON"@.len() == 6);
            assert("AVRO"@[0] == 'A');
            assert("JSON"@[0] == 'J');
        }
        let up = to_uppercase_string(s);
        if up.eq(&String::from_str("ARROW")) {
            Ok(FileType::Arrow)
        } else if up.eq(&String::from_str("AVRO")) {
            Ok(FileType::Avro)
        } else if up.eq(&String::from_str("PARQUET")) {
            Ok(FileType::Parquet)
        } else if up.eq(&String::from_str("CSV")) {
            Ok(FileType::Csv)
        } else if up.eq(&String::from_str("JSON")) {
            Ok(FileType::Json)
        } else if up.eq(&String::from_str("NDJSON")) {
            Ok(FileType::Json)
        } else {
            let prefix = String::from_str("Unknown FileType: ");
            Err(DataFusionError::NotImplemented(prefix.concat(up.as_str())))
        }
    }
}

} // verus!

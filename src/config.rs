//! Checks that a model path names a container file.
use vstd::prelude::*;

verus! {

/// What `std::path::Path::extension` finds in a path: the text after the
/// last dot of the final component, if there is one.
pub uninterp spec fn extension_of(path: Seq<char>) -> Option<Seq<char>>;

/// Relies on `std::path::Path::extension` (and `OsStr::to_str`, which
/// always succeeds on a path made from a `&str`).
#[verifier::external_body]
fn path_extension(path: &str) -> (r: Option<String>)
    ensures
        match r {
            Some(e) => extension_of(path@) == Some(e@),
            None => extension_of(path@) is None,
        },
{
    match std::path::Path::new(path).extension() {
        Some(e) => match e.to_str() {
            Some(t) => Some(t.to_string()),
            None => None,
        },
        None => None,
    }
}

/// Model loading settings.
pub struct Config;

impl Config {
    /// Accepts a path whose extension is exactly `gguf`.
    pub fn load_file(path: &str) -> (r: Result<(), &'static str>)
        ensures
            r is Ok <==> extension_of(path@) == Some("gguf"@),
            extension_of(path@) is None ==> r is Err && r->Err_0@
                == "Error: file extension is missing."@,
            extension_of(path@) matches Some(e) && e != "gguf"@ ==> r is Err && r->Err_0@
                == "Error: file extension is not .gguf"@,
    {
        match path_extension(path) {
            Some(ext) => {
                let wanted: String = "gguf".to_owned();
                if ext != wanted {
                    return Err("Error: file extension is not .gguf");
                }
                Ok(())
            },
            None => Err("Error: file extension is missing."),
        }
    }
}

} // verus!

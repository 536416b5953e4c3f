//! What one run of hiding or extracting works on.
use vstd::prelude::*;

verus! {

/// The files of a run, and its direction.
#[derive(Debug)]
pub struct Configuration {
    /// When extracting, the name of the file to write the hidden data to;
    /// when hiding, the name of the file whose content is hidden.
    pub hidden_file: String,
    /// The name of the image that hosts the hidden data.
    pub host_file: String,
    /// Whether the run extracts hidden data rather than hides it.
    pub extract: bool,
}

impl Configuration {
    /// A configuration with empty names, set to hide.
    pub fn new_default() -> (configuration: Self)
        ensures
            configuration.hidden_file@ == Seq::<char>::empty(),
            configuration.host_file@ == Seq::<char>::empty(),
            !configuration.extract,
    {
        let configuration = Configuration {
            hidden_file: "".to_owned(),
            host_file: "".to_owned(),
            extract: false,
        };
        proof {
            reveal_strlit("");
            assert(configuration.hidden_file@ =~= Seq::<char>::empty());
            assert(configuration.host_file@ =~= Seq::<char>::empty());
        }
        configuration
    }

    /// A configuration with the names and the direction given.
    #[must_use]
    pub fn new(hidden_file: &str, host_file: &str, extract: bool) -> (configuration: Self)
        ensures
            configuration.hidden_file@ == hidden_file@,
            configuration.host_file@ == host_file@,
            configuration.extract == extract,
    {
        Configuration {
            hidden_file: hidden_file.to_owned(),
            host_file: host_file.to_owned(),
            extract,
        }
    }
}

} // verus!

//! Command-line level inputs of the recognition tool: where the model data
//! and enrollment store live, and which detector to use.
use vstd::prelude::*;

verus! {

/// Locations and switches given on the command line.
#[derive(Debug, Clone, PartialEq, Eq)]
pub struct Args {
    pub dlib_data_dir: String,
    pub encodings_path: String,
    pub camera_num: usize,
    pub use_cnn: bool,
}

impl Args {
    /// The path of a model file inside the model data directory.
    pub fn dlib_model_dat(&self, filename: &str) -> (r: String)
        ensures
            r@ == self.dlib_data_dir@ + "/"@ + filename@,
    {
        let mut s = String::from_str(self.dlib_data_dir.as_str());
        s.append("/");
        s.append(filename);
        s
    }
}

} // verus!

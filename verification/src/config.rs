//! Engine configuration: device and file locations, matching and
//! quality-gate thresholds, and the backend selectors. Immutable for the
//! lifetime of a recognizer.
use vstd::prelude::*;
use crate::data::FRcgMode;
use crate::error::Error;

verus! {

/// Face detector backend selector.
#[derive(Debug, Clone, Copy, PartialEq, Eq, Structural)]
pub enum FDetMode {
    Dlib,
    YuNet,
}

/// Engine configuration. The match threshold is a Euclidean distance in
/// fixed-point millionths; the dark threshold is the largest percentage of
/// dark pixels a frame may have before the quality gate rejects it.
#[derive(Debug, Clone)]
pub struct Config {
    pub camera_path: String,
    pub model_dir: String,
    pub faces_file: String,
    pub match_threshold: u64,
    pub dark_threshold: u32,
    pub fdet_mode: FDetMode,
    pub frcg_mode: FRcgMode,
}

impl Config {
    /// Build a configuration; a dark threshold outside 0..=100 percent is
    /// a construction-time failure.
    pub fn new(
        camera_path: String,
        model_dir: String,
        faces_file: String,
        match_threshold: u64,
        dark_threshold: u32,
        fdet_mode: FDetMode,
        frcg_mode: FRcgMode,
    ) -> (r: Result<Config, Error>)
        ensures
            dark_threshold > 100 ==> r matches Err(Error::Other(_)),
            dark_threshold <= 100 ==> (r matches Ok(c) && c.camera_path@ == camera_path@
                && c.model_dir@ == model_dir@ && c.faces_file@ == faces_file@ && c.match_threshold
                == match_threshold && c.dark_threshold == dark_threshold && c.fdet_mode == fdet_mode
                && c.frcg_mode == frcg_mode),
    {
        if dark_threshold > 100 {
            return Err(Error::Other(String::from_str("dark threshold percent should be 0..=100")));
        }
        Ok(
            Config {
                camera_path,
                model_dir,
                faces_file,
                match_threshold,
                dark_threshold,
                fdet_mode,
                frcg_mode,
            },
        )
    }

    /// The path of a model file inside the model directory.
    pub fn model_path(&self, filename: &str) -> (r: String)
        ensures
            r@ == self.model_dir@ + "/"@ + filename@,
    {
        let mut s = String::from_str(self.model_dir.as_str());
        s.append("/");
        s.append(filename);
        s
    }

    /// The path of a model file inside the model directory.
    pub fn dlib_model_dat(&self, filename: &str) -> (r: String)
        ensures
            r@ == self.model_dir@ + "/"@ + filename@,
    {
        self.model_path(filename)
    }

    pub fn camera_path(&self) -> (r: &str)
        ensures
            r@ == self.camera_path@,
    {
        self.camera_path.as_str()
    }

    pub fn faces_file(&self) -> (r: &str)
        ensures
            r@ == self.faces_file@,
    {
        self.faces_file.as_str()
    }

    pub fn dark_threshold(&self) -> (r: u32)
        ensures
            r == self.dark_threshold,
    {
        self.dark_threshold
    }
}

} // verus!

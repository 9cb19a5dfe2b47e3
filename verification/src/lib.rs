//! Face-recognition authentication engine: embedding distance and matching
//! against a persisted face store, frame quality gating, camera format
//! negotiation, and the deadline-bounded retry state machine that turns a
//! stream of camera frames into a single authentication outcome.
pub mod args;
pub mod camera;
pub mod cli;
pub mod config;
pub mod data;
pub mod error;
pub mod image_utils;
pub mod session;
pub mod store;
pub mod text;
pub mod utils;

use vstd::prelude::*;
use crate::config::{Config, FDetMode};
use crate::data::{is_match, FRcgMode, FaceEnc, Faces};
use crate::error::Error;
use crate::image_utils::Rect;
use crate::store::{sp_parse_store, views_of};

verus! {

/// The recognition engine: the enrolled-face database together with the
/// matching policy from the configuration. The heavyweight detector and
/// encoder models are owned by the caller; their outputs are handed in as
/// plain rectangles and embeddings.
#[derive(Debug)]
pub struct FaceRecognizer {
    pub known_faces: Faces,
    pub match_threshold: u64,
    pub fdet_mode: FDetMode,
    pub frcg_mode: FRcgMode,
}

impl FaceRecognizer {
    /// Build a recognizer from the configuration and the content of the
    /// face-store file (`None` when the file is absent, which yields an
    /// empty database).
    pub fn new(config: &Config, store_content: Option<&str>) -> (r: Result<FaceRecognizer, Error>)
        ensures
            store_content is None ==> (r matches Ok(fr) && fr.known_faces.list@.len() == 0),
            match r {
                Ok(fr) => {
                    &&& fr.known_faces.wf()
                    &&& fr.match_threshold == config.match_threshold
                    &&& fr.fdet_mode == config.fdet_mode
                    &&& fr.frcg_mode == config.frcg_mode
                    &&& (store_content matches Some(t) ==> sp_parse_store(t@) == Some(
                        views_of(fr.known_faces.list@),
                    ))
                },
                Err(_) => store_content matches Some(t) && sp_parse_store(t@) is None,
            },
    {
        let known_faces = match Faces::from_store(store_content) {
            Ok(db) => db,
            Err(e) => {
                return Err(e);
            },
        };
        Ok(
            FaceRecognizer {
                known_faces,
                match_threshold: config.match_threshold,
                fdet_mode: config.fdet_mode,
                frcg_mode: config.frcg_mode,
            },
        )
    }

    /// The one-or-none policy over a detector's output: more than one
    /// located face is an error, a single one is returned, none is not.
    pub fn get_face_rect(&self, locs: &Vec<Rect>) -> (r: Result<Option<Rect>, Error>)
        ensures
            locs@.len() > 1 ==> r == Err::<Option<Rect>, Error>(Error::MultipleFaces),
            locs@.len() == 1 ==> r == Ok::<Option<Rect>, Error>(Some(locs@[0])),
            locs@.len() == 0 ==> r == Ok::<Option<Rect>, Error>(None),
    {
        if locs.len() > 1 {
            return Err(Error::MultipleFaces);
        }
        if locs.len() == 1 {
            return Ok(Some(locs[0]));
        }
        Ok(None)
    }

    /// Given an encoding, find the first enrolled face within the
    /// configured threshold, in enrollment order.
    pub fn get_enc_info(&self, encoding: &FaceEnc) -> (r: Option<usize>)
        requires
            self.known_faces.wf(),
            encoding.wf(),
        ensures
            match r {
                Some(i) => {
                    &&& i < self.known_faces.list@.len()
                    &&& is_match(self.known_faces.list@[i as int], *encoding, self.match_threshold)
                    &&& forall|j: int|
                        0 <= j < i ==> !is_match(
                            #[trigger] self.known_faces.list@[j],
                            *encoding,
                            self.match_threshold,
                        )
                },
                None => forall|j: int|
                    0 <= j < self.known_faces.list@.len() ==> !is_match(
                        #[trigger] self.known_faces.list@[j],
                        *encoding,
                        self.match_threshold,
                    ),
            },
    {
        self.known_faces.check_match(encoding, self.match_threshold)
    }

    /// Append a new enrollment with the next sequential identifier.
    pub fn add_face(&mut self, enc: FaceEnc, label: Option<String>, now_unix_secs: u64) -> (r:
        Result<(), Error>)
        requires
            old(self).known_faces.wf(),
            enc.wf(),
            crate::data::next_id(old(self).known_faces.list@) <= u64::MAX,
        ensures
            r is Ok,
            final(self).match_threshold == old(self).match_threshold,
            final(self).fdet_mode == old(self).fdet_mode,
            final(self).frcg_mode == old(self).frcg_mode,
            final(self).known_faces.wf(),
            final(self).known_faces.list@.len() == old(self).known_faces.list@.len() + 1,
            final(self).known_faces.list@.drop_last() == old(self).known_faces.list@,
            final(self).known_faces.list@.last().id == crate::data::next_id(
                old(self).known_faces.list@,
            ),
            final(self).known_faces.list@.last().time == now_unix_secs,
            final(self).known_faces.list@.last().data == enc,
            old(self).known_faces.ids_increasing() ==> final(self).known_faces.ids_increasing(),
    {
        self.known_faces.add_face(enc, label, now_unix_secs)
    }

    /// Whether any faces are enrolled.
    pub fn has_faces(&self) -> (r: bool)
        ensures
            r == (self.known_faces.list@.len() != 0),
    {
        !self.known_faces.is_empty()
    }

    /// The canonical store text for the current database, for the caller
    /// to write to the faces file.
    pub fn dump_faces_file(&self) -> (r: String)
        requires
            self.known_faces.printable(),
        ensures
            r@ == crate::store::print_store(views_of(self.known_faces.list@)),
    {
        self.known_faces.to_json()
    }
}

} // verus!

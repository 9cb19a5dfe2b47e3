//! Tests for the face-store codec: canonical printing, legacy shapes,
//! escapes, numbers, and the save/load round trip.
use yahallo::data::{FRcgMode, FaceEnc, Faces, ModelData};

fn enc(mode: FRcgMode, comps: Vec<i64>) -> FaceEnc {
    FaceEnc::new(mode, comps)
}

fn one_record_db() -> Faces {
    let mut db = Faces::empty();
    db.add_face(enc(FRcgMode::Dlib, vec![250000]), Some(String::from("alice")), 5)
        .unwrap();
    db
}

#[test]
fn canonical_store_text() {
    let db = one_record_db();
    let text = db.to_json();
    assert_eq!(
        text,
        "[\n  {\"time\": 5, \"label\": \"alice\", \"id\": 1, \"data\": {\"model\": \"dlib\", \"emb\": [0.250000]}}\n]"
    );
}

#[test]
fn empty_store_text() {
    let db = Faces::empty();
    assert_eq!(db.to_json(), "[]");
}

#[test]
fn round_trip_tagged() {
    let mut db = Faces::empty();
    db.add_face(
        enc(FRcgMode::Dlib, vec![250000, -1500000, 0]),
        Some(String::from("alice")),
        77,
    )
    .unwrap();
    db.add_face(enc(FRcgMode::SFace, vec![1, -1]), None, 78).unwrap();
    let text = db.to_json();
    let back = Faces::from_json(&text).unwrap();
    assert_eq!(back.len(), 2);
    let a = back.get(0);
    assert_eq!(a.time, 77);
    assert_eq!(a.label(), "alice");
    assert_eq!(a.id, 1);
    assert_eq!(a.data.mode, FRcgMode::Dlib);
    assert_eq!(a.data.comps, vec![250000, -1500000, 0]);
    let b = back.get(1);
    assert_eq!(b.label(), "Model #2");
    assert_eq!(b.id, 2);
    assert_eq!(b.data.mode, FRcgMode::SFace);
    assert_eq!(b.data.comps, vec![1, -1]);
}

#[test]
fn round_trip_escaped_label() {
    let mut db = Faces::empty();
    db.add_face(
        enc(FRcgMode::Dlib, vec![7]),
        Some(String::from("a\"b\\c \u{263A}")),
        1,
    )
    .unwrap();
    let text = db.to_json();
    let back = Faces::from_json(&text).unwrap();
    assert_eq!(back.get(0).label(), "a\"b\\c \u{263A}");
}

#[test]
fn legacy_bare_array_defaults_to_dlib() {
    let text = "[{\"time\": 0, \"label\": \"bob\", \"id\": 2, \"data\": [0.5, -0.25]}]";
    let db = Faces::from_json(text).unwrap();
    assert_eq!(db.len(), 1);
    let m = db.get(0);
    assert_eq!(m.data.mode, FRcgMode::Dlib);
    assert_eq!(m.data.comps, vec![500000, -250000]);
}

#[test]
fn legacy_nested_array_takes_first_inner() {
    let text = "[{\"time\": 1, \"label\": \"c\", \"id\": 3, \"data\": [[1.0, 2.0], [9.0]]}]";
    let db = Faces::from_json(text).unwrap();
    assert_eq!(db.get(0).data.comps, vec![1000000, 2000000]);
}

#[test]
fn tagged_sface_model() {
    let text = "[{\"time\": 1, \"label\": \"d\", \"id\": 4, \"data\": {\"model\": \"sface\", \"emb\": [3]}}]";
    let db = Faces::from_json(text).unwrap();
    assert_eq!(db.get(0).data.mode, FRcgMode::SFace);
    assert_eq!(db.get(0).data.comps, vec![3000000]);
}

#[test]
fn numbers_with_exponents() {
    let text = "[{\"time\": 1, \"label\": \"e\", \"id\": 5, \"data\": [1e-3, 2.5e-5, -1.5E2, 0e9]}]";
    let db = Faces::from_json(text).unwrap();
    assert_eq!(db.get(0).data.comps, vec![1000, 25, -150000000, 0]);
}

#[test]
fn whitespace_tolerated() {
    let text = "  [ { \"time\" : 1 , \"label\" : \"f\" ,\n \"id\" : 6 , \"data\" : [ 1.0 , 2.0 ] } ]  ";
    let db = Faces::from_json(text).unwrap();
    assert_eq!(db.get(0).id, 6);
    assert_eq!(db.get(0).data.comps, vec![1000000, 2000000]);
}

#[test]
fn unicode_escape_in_label() {
    let text = "[{\"time\": 1, \"label\": \"\\u0041\\n\", \"id\": 7, \"data\": [1]}]";
    let db = Faces::from_json(text).unwrap();
    assert_eq!(db.get(0).label(), "A\n");
}

#[test]
fn invalid_store_rejected() {
    assert!(Faces::from_json("").is_err());
    assert!(Faces::from_json("{}").is_err());
    assert!(Faces::from_json("[{\"time\": 1}]").is_err());
    // empty embedding
    assert!(Faces::from_json("[{\"time\": 1, \"label\": \"x\", \"id\": 1, \"data\": []}]").is_err());
    // unknown model name
    assert!(Faces::from_json(
        "[{\"time\": 1, \"label\": \"x\", \"id\": 1, \"data\": {\"model\": \"other\", \"emb\": [1]}}]"
    )
    .is_err());
    // component magnitude out of range
    assert!(Faces::from_json("[{\"time\": 1, \"label\": \"x\", \"id\": 1, \"data\": [1e300]}]").is_err());
    // trailing garbage
    assert!(Faces::from_json("[] x").is_err());
}

#[test]
fn missing_store_creates_empty_database() {
    let db = Faces::from_store(None).unwrap();
    assert_eq!(db.len(), 0);
    assert!(db.is_empty());
}

#[test]
fn present_store_is_parsed() {
    let db = Faces::from_store(Some("[]")).unwrap();
    assert_eq!(db.len(), 0);
    assert!(Faces::from_store(Some("nonsense")).is_err());
}

//! Tests for distance, matching, enrollment identifiers, the quality gate,
//! resizing, negotiation, configuration, arguments and the bus codec.
use yahallo::camera::{configure, CamIntervals, CamResolutions, StreamConfig};
use yahallo::config::{Config, FDetMode};
use yahallo::data::{FRcgMode, FaceEnc, Faces};
use yahallo::error::{DbusResult, Error};
use yahallo::image_utils::{bin, center_crop, gen_hist, int_ceil, is_dark, process_image,
    resize_to_width, Frame, GrayImage};
use yahallo::args::parse_args;
use yahallo::utils::Stopwatch;
use yahallo::FaceRecognizer;

fn enc(mode: FRcgMode, comps: Vec<i64>) -> FaceEnc {
    FaceEnc::new(mode, comps)
}

#[test]
fn distance_symmetric_and_zero() {
    let a = enc(FRcgMode::Dlib, vec![3, -4, 5]);
    let b = enc(FRcgMode::Dlib, vec![0, 0, 0]);
    assert_eq!(a.distance_sq(&b), b.distance_sq(&a));
    assert_eq!(a.distance_sq(&b), Some(50));
    assert_eq!(a.distance_sq(&a), Some(0));
}

#[test]
fn distance_across_backends_is_non_matching() {
    let a = enc(FRcgMode::Dlib, vec![1]);
    let b = enc(FRcgMode::SFace, vec![1]);
    assert_eq!(a.distance_sq(&b), None);
}

#[test]
fn check_match_threshold_boundary_is_inclusive() {
    let mut db = Faces::empty();
    db.add_face(enc(FRcgMode::Dlib, vec![0]), Some(String::from("edge")), 0)
        .unwrap();
    let at_threshold = enc(FRcgMode::Dlib, vec![600000]);
    let beyond = enc(FRcgMode::Dlib, vec![600001]);
    assert_eq!(db.check_match(&at_threshold, 600000), Some(0));
    assert_eq!(db.check_match(&beyond, 600000), None);
}

#[test]
fn check_match_returns_first_under_threshold_not_nearest() {
    let mut db = Faces::empty();
    db.add_face(enc(FRcgMode::Dlib, vec![10]), Some(String::from("far")), 0)
        .unwrap();
    db.add_face(enc(FRcgMode::Dlib, vec![1]), Some(String::from("near")), 0)
        .unwrap();
    let q = enc(FRcgMode::Dlib, vec![0]);
    // both are within the threshold; the first in enrollment order wins
    assert_eq!(db.check_match(&q, 100), Some(0));
}

#[test]
fn check_match_skips_other_backend() {
    let mut db = Faces::empty();
    db.add_face(enc(FRcgMode::SFace, vec![0]), Some(String::from("s")), 0)
        .unwrap();
    db.add_face(enc(FRcgMode::Dlib, vec![0]), Some(String::from("d")), 0)
        .unwrap();
    let q = enc(FRcgMode::Dlib, vec![0]);
    assert_eq!(db.check_match(&q, 10), Some(1));
}

#[test]
fn enrollment_ids_start_at_one_and_increase() {
    let mut db = Faces::empty();
    db.add_face(enc(FRcgMode::Dlib, vec![1]), None, 0).unwrap();
    db.add_face(enc(FRcgMode::Dlib, vec![2]), None, 0).unwrap();
    db.add_face(enc(FRcgMode::Dlib, vec![3]), None, 0).unwrap();
    assert_eq!(db.get(0).id, 1);
    assert_eq!(db.get(1).id, 2);
    assert_eq!(db.get(2).id, 3);
    // ids keep increasing past records loaded from a pre-populated store
    let loaded = Faces::from_json(
        "[{\"time\": 0, \"label\": \"a\", \"id\": 41, \"data\": [1]}]",
    )
    .unwrap();
    let mut loaded = loaded;
    loaded.add_face(enc(FRcgMode::Dlib, vec![1]), None, 0).unwrap();
    assert_eq!(loaded.get(1).id, 42);
}

#[test]
fn generated_labels_number_the_model() {
    let mut db = Faces::empty();
    db.add_face(enc(FRcgMode::Dlib, vec![1]), None, 0).unwrap();
    assert_eq!(db.get(0).label(), "Model #1");
}

#[test]
fn process_image_validates_buffer() {
    let ok = process_image(Frame { data: vec![0; 6], width: 3, height: 2 });
    assert!(ok.is_ok());
    let bad = process_image(Frame { data: vec![0; 5], width: 3, height: 2 });
    assert!(bad.is_err());
}

#[test]
fn center_crop_takes_centered_square() {
    let img = GrayImage { width: 4, height: 2, pixels: vec![1, 2, 3, 4, 5, 6, 7, 8] };
    let c = center_crop(&img);
    assert_eq!(c.width, 2);
    assert_eq!(c.height, 2);
    assert_eq!(c.pixels, vec![2, 3, 6, 7]);
}

#[test]
fn histogram_buckets() {
    assert_eq!(int_ceil(255, 12), 22);
    assert_eq!(bin::<12>(0), 0);
    assert_eq!(bin::<12>(21), 0);
    assert_eq!(bin::<12>(22), 1);
    assert_eq!(bin::<12>(255), 11);
    let img = GrayImage { width: 4, height: 1, pixels: vec![0, 21, 22, 255] };
    let hist = gen_hist::<12>(&img);
    assert_eq!(hist[0], 2);
    assert_eq!(hist[1], 1);
    assert_eq!(hist[11], 1);
    assert_eq!(hist[5], 0);
}

#[test]
fn dark_frame_rejected_for_any_threshold_up_to_hundred() {
    let img = GrayImage { width: 4, height: 2, pixels: vec![0; 8] };
    assert!(is_dark(&img, 100));
    assert!(is_dark(&img, 50));
    assert!(is_dark(&img, 0));
}

#[test]
fn bright_frame_passes_for_any_positive_threshold() {
    let img = GrayImage { width: 4, height: 2, pixels: vec![200; 8] };
    assert!(!is_dark(&img, 1));
    assert!(!is_dark(&img, 100));
    // a zero threshold always flags the frame, as zero percent is reached
    assert!(is_dark(&img, 0));
}

#[test]
fn resize_constant_image_stays_constant() {
    let img = GrayImage { width: 4, height: 2, pixels: vec![7; 8] };
    let out = resize_to_width(&img, 2);
    assert_eq!(out.width, 2);
    assert_eq!(out.height, 1);
    assert_eq!(out.pixels, vec![7, 7]);
}

#[test]
fn negotiation_picks_first_discrete_pair() {
    let res = CamResolutions::Discrete(vec![(640, 480), (320, 240)]);
    let intv = CamIntervals::Discrete(vec![(1, 30), (1, 15)]);
    let cfg = configure(true, &res, &intv).unwrap();
    assert_eq!(cfg, StreamConfig { resolution: (640, 480), interval: (1, 30) });
}

#[test]
fn negotiation_rejects_unsupported_devices() {
    let res = CamResolutions::Discrete(vec![(640, 480)]);
    let intv = CamIntervals::Discrete(vec![(1, 30)]);
    assert!(configure(false, &res, &intv).is_err());
    assert!(configure(true, &CamResolutions::Continuous, &intv).is_err());
    assert!(configure(true, &CamResolutions::Discrete(vec![]), &intv).is_err());
    assert!(configure(true, &res, &CamIntervals::Continuous).is_err());
}

#[test]
fn config_validates_dark_threshold() {
    let ok = Config::new(
        String::from("/dev/video2"),
        String::from("data"),
        String::from("data/faces.json"),
        600000,
        30,
        FDetMode::Dlib,
        FRcgMode::Dlib,
    );
    assert!(ok.is_ok());
    let c = ok.unwrap();
    assert_eq!(c.dark_threshold(), 30);
    assert_eq!(c.camera_path(), "/dev/video2");
    assert_eq!(c.faces_file(), "data/faces.json");
    assert_eq!(c.model_path("model.dat"), "data/model.dat");
    assert_eq!(c.dlib_model_dat("x.dat"), "data/x.dat");
    let bad = Config::new(
        String::from("/dev/video2"),
        String::from("data"),
        String::from("data/faces.json"),
        600000,
        101,
        FDetMode::Dlib,
        FRcgMode::Dlib,
    );
    assert!(bad.is_err());
}

#[test]
fn bus_result_codes() {
    let cases: Vec<(DbusResult, &str)> = vec![
        (DbusResult::Success, "Success"),
        (DbusResult::Error(Error::Timeout), "Timeout"),
        (DbusResult::Error(Error::NoData), "NoData"),
        (DbusResult::Error(Error::NoFace), "NoFace"),
        (DbusResult::Error(Error::MultipleFaces), "MultipleFaces"),
        (DbusResult::Error(Error::TooDark), "TooDark"),
        (DbusResult::Error(Error::UnknownUser), "UnknownUser"),
    ];
    for (r, code) in cases {
        assert_eq!(r.code(), code);
        assert_eq!(DbusResult::from_code(code), r);
    }
    let other = DbusResult::Error(Error::Other(String::from("boom")));
    assert_eq!(other.code(), "boom");
    assert_eq!(DbusResult::from_code("boom"), other);
    assert!(DbusResult::Success.grants());
    assert!(!other.grants());
}

#[test]
fn shim_arguments_parse() {
    let ok = parse_args(vec![String::from("debug"), String::from("timeout=5")]).unwrap();
    assert_eq!(ok.timeout, Some(5));
    let none = parse_args(vec![String::from("debug")]).unwrap();
    assert_eq!(none.timeout, None);
    assert!(parse_args(vec![String::from("timeout=abc")]).is_err());
    // a later timeout option overrides an earlier one
    let last = parse_args(vec![String::from("timeout=1"), String::from("timeout=9")]).unwrap();
    assert_eq!(last.timeout, Some(9));
}

#[test]
fn recognizer_loads_and_matches() {
    let config = Config::new(
        String::from("/dev/video2"),
        String::from("data"),
        String::from("data/faces.json"),
        600000,
        30,
        FDetMode::Dlib,
        FRcgMode::Dlib,
    )
    .unwrap();
    let store = "[{\"time\": 0, \"label\": \"alice\", \"id\": 1, \"data\": [0.25]}]";
    let fr = FaceRecognizer::new(&config, Some(store)).unwrap();
    assert!(fr.has_faces());
    let hit = fr.get_enc_info(&enc(FRcgMode::Dlib, vec![250000]));
    assert_eq!(hit, Some(0));
    assert_eq!(fr.known_faces.get(0).label(), "alice");
    let miss = fr.get_enc_info(&enc(FRcgMode::Dlib, vec![5000000]));
    assert_eq!(miss, None);
}

#[test]
fn stopwatch_times_a_closure() {
    let sw = Stopwatch::new("outer");
    let v = Stopwatch::time("inner", || 41 + 1);
    assert_eq!(v, 42);
    let _ = sw;
}

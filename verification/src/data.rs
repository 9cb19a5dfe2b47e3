//! Face embeddings and the enrolled-face database.
//!
//! An embedding is an ordered sequence of fixed-point components (units of
//! one millionth) tagged with the encoder backend that produced it.
//! Distances are only meaningful between embeddings with the same tag;
//! comparisons across tags are treated as non-matching.
use vstd::prelude::*;
use crate::error::Error;
use crate::text::{dec_digits, fmt_u64};

verus! {

/// Encoder backend that produced an embedding.
#[derive(Debug, Clone, Copy, PartialEq, Eq, Structural)]
pub enum FRcgMode {
    Dlib,
    SFace,
}

/// Number of fixed-point units per 1.0 of embedding component value.
pub const SCALE: i64 = 1_000_000;

/// Largest magnitude an embedding component may have (10^6 in real value).
pub const COMP_LIMIT: i64 = 1_000_000_000_000;

/// Largest number of components an embedding may have.
pub const MAX_COMPONENTS: usize = 65536;

/// A face embedding: backend tag plus fixed-point components.
#[derive(Debug, Clone)]
pub struct FaceEnc {
    pub mode: FRcgMode,
    pub comps: Vec<i64>,
}

/// Sum of squared component differences over the common prefix of `a` and `b`.
pub open spec fn sq_dist(a: Seq<i64>, b: Seq<i64>) -> int
    decreases a.len(),
{
    if a.len() == 0 || b.len() == 0 {
        0
    } else {
        (a[0] - b[0]) * (a[0] - b[0]) + sq_dist(a.drop_first(), b.drop_first())
    }
}

/// Appending one component to each of two equal-length sequences adds its
/// squared difference to the distance.
pub proof fn lemma_sq_dist_push(a: Seq<i64>, b: Seq<i64>, x: i64, y: i64)
    requires
        a.len() == b.len(),
    ensures
        sq_dist(a.push(x), b.push(y)) == sq_dist(a, b) + (x - y) * (x - y),
    decreases a.len(),
{
    if a.len() == 0 {
        assert(a.push(x)[0] == x);
        assert(b.push(y)[0] == y);
        assert(a.push(x).drop_first() =~= Seq::<i64>::empty());
        assert(b.push(y).drop_first() =~= Seq::<i64>::empty());
        assert(sq_dist(Seq::<i64>::empty(), Seq::<i64>::empty()) == 0);
        assert(sq_dist(a.push(x), b.push(y)) == (x - y) * (x - y));
    } else {
        assert(a.push(x)[0] == a[0]);
        assert(b.push(y)[0] == b[0]);
        assert(a.push(x).drop_first() =~= a.drop_first().push(x));
        assert(b.push(y).drop_first() =~= b.drop_first().push(y));
        lemma_sq_dist_push(a.drop_first(), b.drop_first(), x, y);
    }
}

/// The distance only depends on the common prefix of the two sequences.
pub proof fn lemma_sq_dist_common_prefix(a: Seq<i64>, b: Seq<i64>, m: int)
    requires
        m == if a.len() <= b.len() {
            a.len() as int
        } else {
            b.len() as int
        },
    ensures
        sq_dist(a.take(m), b.take(m)) == sq_dist(a, b),
    decreases a.len(),
{
    if a.len() == 0 || b.len() == 0 {
        assert(a.take(m) =~= a.take(0));
        assert(b.take(m) =~= b.take(0));
    } else {
        assert(a.take(m).drop_first() =~= a.drop_first().take(m - 1));
        assert(b.take(m).drop_first() =~= b.drop_first().take(m - 1));
        lemma_sq_dist_common_prefix(a.drop_first(), b.drop_first(), m - 1);
    }
}

/// Distance is symmetric in its two arguments.
pub proof fn lemma_sq_dist_symmetric(a: Seq<i64>, b: Seq<i64>)
    ensures
        sq_dist(a, b) == sq_dist(b, a),
    decreases a.len(),
{
    if a.len() == 0 || b.len() == 0 {
    } else {
        assert((a[0] - b[0]) * (a[0] - b[0]) == (b[0] - a[0]) * (b[0] - a[0])) by (nonlinear_arith);
        lemma_sq_dist_symmetric(a.drop_first(), b.drop_first());
    }
}

/// The distance from a sequence to itself is zero.
pub proof fn lemma_sq_dist_self_zero(a: Seq<i64>)
    ensures
        sq_dist(a, a) == 0,
    decreases a.len(),
{
    if a.len() > 0 {
        lemma_sq_dist_self_zero(a.drop_first());
    }
}

impl FaceEnc {
    /// Components are bounded so that squared distances cannot overflow.
    pub open spec fn wf(&self) -> bool {
        &&& self.comps@.len() <= MAX_COMPONENTS
        &&& forall|i: int|
            0 <= i < self.comps@.len() ==> -COMP_LIMIT <= #[trigger] self.comps@[i] <= COMP_LIMIT
    }

    pub fn new(mode: FRcgMode, comps: Vec<i64>) -> (r: FaceEnc)
        requires
            comps@.len() <= MAX_COMPONENTS,
            forall|i: int|
                0 <= i < comps@.len() ==> -COMP_LIMIT <= #[trigger] comps@[i] <= COMP_LIMIT,
        ensures
            r.wf(),
            r.mode == mode,
            r.comps@ == comps@,
    {
        FaceEnc { mode, comps }
    }

    /// Squared Euclidean distance between two embeddings of the same backend,
    /// `None` when the backends differ (treated as non-matching).
    pub fn distance_sq(&self, other: &FaceEnc) -> (r: Option<u128>)
        requires
            self.wf(),
            other.wf(),
        ensures
            match r {
                Some(d) => self.mode == other.mode && d == sq_dist(self.comps@, other.comps@),
                None => self.mode != other.mode,
            },
    {
        if self.mode != other.mode {
            return None;
        }
        let a = &self.comps;
        let b = &other.comps;
        let n = if a.len() <= b.len() {
            a.len()
        } else {
            b.len()
        };
        let mut acc: u128 = 0;
        let mut i: usize = 0;
        while i < n
            invariant
                i <= n,
                n <= a@.len(),
                n <= b@.len(),
                self.wf(),
                other.wf(),
                a == &self.comps,
                b == &other.comps,
                acc == sq_dist(a@.take(i as int), b@.take(i as int)),
                acc <= (i as int) * 4 * (COMP_LIMIT as int) * (COMP_LIMIT as int),
            decreases n - i,
        {
            let d: i64 = a[i] - b[i];
            proof {
                assert(-2 * COMP_LIMIT <= d <= 2 * COMP_LIMIT);
                assert(d as i128 * d as i128 <= 4 * (COMP_LIMIT as int) * (COMP_LIMIT as int)
                    && d as i128 * d as i128 >= 0) by (nonlinear_arith)
                    requires
                        -2 * (COMP_LIMIT as int) <= d as i128 <= 2 * (COMP_LIMIT as int),
                ;
                assert(a@.take(i + 1) =~= a@.take(i as int).push(a@[i as int]));
                assert(b@.take(i + 1) =~= b@.take(i as int).push(b@[i as int]));
                lemma_sq_dist_push(a@.take(i as int), b@.take(i as int), a@[i as int], b@[i as int]);
                assert((i as int) * 4 * (COMP_LIMIT as int) * (COMP_LIMIT as int) + 4 * (
                COMP_LIMIT as int) * (COMP_LIMIT as int) == (i + 1) * 4 * (COMP_LIMIT as int) * (
                COMP_LIMIT as int)) by (nonlinear_arith);
                assert((i + 1) * 4 * (COMP_LIMIT as int) * (COMP_LIMIT as int) <= (
                MAX_COMPONENTS as int) * 4 * (COMP_LIMIT as int) * (COMP_LIMIT as int)) by (
                nonlinear_arith)
                    requires
                        i + 1 <= MAX_COMPONENTS as int,
                ;
            }
            let sq_i: i128 = d as i128 * d as i128;
            acc = acc + (sq_i as u128);
            i = i + 1;
        }
        proof {
            lemma_sq_dist_common_prefix(a@, b@, n as int);
        }
        Some(acc)
    }
}

} // verus!

verus! {

/// One enrolled face: creation time, display label, numeric identifier and
/// the embedding it was enrolled with. Immutable once created.
#[derive(Debug, Clone)]
pub struct ModelData {
    pub time: u64,
    pub label: String,
    pub id: u64,
    pub data: FaceEnc,
}

impl ModelData {
    pub open spec fn wf(&self) -> bool {
        self.data.wf()
    }

    pub fn new(time: u64, label: String, id: u64, data: FaceEnc) -> (r: ModelData)
        ensures
            r.time == time,
            r.label@ == label@,
            r.id == id,
            r.data == data,
    {
        ModelData { time, label, id, data }
    }

    pub fn encoding(&self) -> (r: &FaceEnc)
        ensures
            r == &self.data,
    {
        &self.data
    }

    pub fn label(&self) -> (r: &str)
        ensures
            r@ == self.label@,
    {
        self.label.as_str()
    }
}

/// Whether an enrolled record matches a query embedding at the given
/// threshold: same backend tag, and squared distance at most the squared
/// threshold (the boundary is inclusive).
pub open spec fn is_match(m: ModelData, q: FaceEnc, threshold: u64) -> bool {
    &&& m.data.mode == q.mode
    &&& sq_dist(m.data.comps@, q.comps@) <= (threshold as int) * (threshold as int)
}

/// The identifier the next enrollment will get: one past the last record's,
/// starting at 1 on an empty database.
pub open spec fn next_id(s: Seq<ModelData>) -> int {
    if s.len() == 0 {
        1
    } else {
        s.last().id + 1
    }
}

/// The in-memory face database: enrolled faces in enrollment order.
#[derive(Debug)]
pub struct Faces {
    pub list: Vec<ModelData>,
}

impl Faces {
    pub open spec fn wf(&self) -> bool {
        forall|i: int| 0 <= i < self.list@.len() ==> (#[trigger] self.list@[i]).wf()
    }

    /// Identifiers are at least 1 and strictly increasing in enrollment
    /// order.
    pub open spec fn ids_increasing(&self) -> bool {
        &&& forall|i: int| 0 <= i < self.list@.len() ==> (#[trigger] self.list@[i]).id >= 1
        &&& forall|i: int, j: int|
            0 <= i < j < self.list@.len() ==> (#[trigger] self.list@[i]).id < (
            #[trigger] self.list@[j]).id
    }

    pub fn empty() -> (r: Faces)
        ensures
            r.list@.len() == 0,
            r.wf(),
            r.ids_increasing(),
    {
        Faces { list: Vec::new() }
    }

    pub fn is_empty(&self) -> (r: bool)
        ensures
            r == (self.list@.len() == 0),
    {
        self.list.len() == 0
    }

    pub fn len(&self) -> (r: usize)
        ensures
            r == self.list@.len(),
    {
        self.list.len()
    }

    pub fn get(&self, i: usize) -> (r: &ModelData)
        requires
            i < self.list@.len(),
        ensures
            r == &self.list@[i as int],
    {
        &self.list[i]
    }

    /// Scan enrolled faces in enrollment order and return the index of the
    /// first record whose distance to the query is at or below the
    /// threshold — not the globally nearest.
    pub fn check_match(&self, encoding: &FaceEnc, threshold: u64) -> (r: Option<usize>)
        requires
            self.wf(),
            encoding.wf(),
        ensures
            match r {
                Some(i) => {
                    &&& i < self.list@.len()
                    &&& is_match(self.list@[i as int], *encoding, threshold)
                    &&& forall|j: int| 0 <= j < i ==> !is_match(#[trigger] self.list@[j], *encoding, threshold)
                },
                None => forall|j: int|
                    0 <= j < self.list@.len() ==> !is_match(
                        #[trigger] self.list@[j],
                        *encoding,
                        threshold,
                    ),
            },
    {
        proof {
            assert((threshold as int) * (threshold as int) <= (u64::MAX as int) * (
            u64::MAX as int)) by (nonlinear_arith)
                requires
                    0 <= threshold as int <= u64::MAX as int,
            ;
        }
        let thr_sq: u128 = (threshold as u128) * (threshold as u128);
        let mut i: usize = 0;
        while i < self.list.len()
            invariant
                i <= self.list@.len(),
                self.wf(),
                encoding.wf(),
                thr_sq == (threshold as int) * (threshold as int),
                forall|j: int| 0 <= j < i ==> !is_match(#[trigger] self.list@[j], *encoding, threshold),
            decreases self.list@.len() - i,
        {
            match self.list[i].data.distance_sq(encoding) {
                Some(d) => {
                    if d <= thr_sq {
                        return Some(i);
                    }
                },
                None => {},
            }
            i = i + 1;
        }
        None
    }

    /// Append a new enrollment with the next sequential identifier and a
    /// generated label when none is supplied. Does not deduplicate.
    pub fn add_face(&mut self, enc: FaceEnc, label: Option<String>, now_unix_secs: u64) -> (r:
        Result<(), Error>)
        requires
            old(self).wf(),
            enc.wf(),
            next_id(old(self).list@) <= u64::MAX,
        ensures
            r is Ok,
            final(self).list@.len() == old(self).list@.len() + 1,
            final(self).list@.drop_last() == old(self).list@,
            final(self).list@.last().time == now_unix_secs,
            final(self).list@.last().id == next_id(old(self).list@),
            final(self).list@.last().data == enc,
            match label {
                Some(l) => final(self).list@.last().label@ == l@,
                None => final(self).list@.last().label@ == "Model #"@ + dec_digits(
                    next_id(old(self).list@) as nat,
                ),
            },
            final(self).wf(),
            old(self).ids_increasing() ==> final(self).ids_increasing(),
    {
        let new_id: u64 = if self.list.len() == 0 {
            1
        } else {
            self.list[self.list.len() - 1].id + 1
        };
        let label_str: String = match label {
            Some(l) => l,
            None => {
                let mut s = String::from_str("Model #");
                let digits = fmt_u64(new_id);
                s.append(digits.as_str());
                s
            },
        };
        let rec = ModelData { time: now_unix_secs, label: label_str, id: new_id, data: enc };
        self.list.push(rec);
        proof {
            assert(final(self).list@.drop_last() =~= old(self).list@);
            if old(self).ids_increasing() {
                assert(forall|i: int|
                    0 <= i < old(self).list@.len() ==> (#[trigger] old(self).list@[i]).id
                        < new_id);
            }
        }
        Ok(())
    }
}

/// A record whose embedding lies at exactly the configured threshold
/// distance from the query still matches: the boundary is inclusive.
pub proof fn lemma_threshold_boundary_inclusive(m: ModelData, q: FaceEnc, threshold: u64)
    requires
        m.data.mode == q.mode,
        sq_dist(m.data.comps@, q.comps@) == (threshold as int) * (threshold as int),
    ensures
        is_match(m, q, threshold),
{
}

/// The distance between embeddings is symmetric, and the distance from an
/// embedding to itself is zero.
pub proof fn lemma_distance_symmetric_and_self_zero(a: FaceEnc, b: FaceEnc)
    ensures
        sq_dist(a.comps@, b.comps@) == sq_dist(b.comps@, a.comps@),
        sq_dist(a.comps@, a.comps@) == 0,
{
    lemma_sq_dist_symmetric(a.comps@, b.comps@);
    lemma_sq_dist_self_zero(a.comps@);
}

/// Identifiers assigned by enrollment exceed every identifier already in
/// the database, and the first one on an empty database is 1.
pub proof fn lemma_next_id_exceeds_all(db: Faces)
    requires
        db.ids_increasing(),
    ensures
        forall|i: int| 0 <= i < db.list@.len() ==> (#[trigger] db.list@[i]).id < next_id(db.list@),
        db.list@.len() == 0 ==> next_id(db.list@) == 1,
{
    assert(forall|i: int|
        0 <= i < db.list@.len() ==> (#[trigger] db.list@[i]).id <= db.list@.last().id || i
            < db.list@.len() - 1);
}

} // verus!

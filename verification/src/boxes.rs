//! The detection-set container: a growable struct-of-arrays collection of
//! candidate boxes, plus the bulk center-form to corner-form conversion.
//!
//! Contracts speak about [`CandModel`], the mathematical view of one row: the
//! four corner coordinates, the score and the class id as unbounded integers.

use vstd::prelude::*;

verus! {

use crate::fixed::CLASS_LIMIT;
use crate::fixed::COORD_LIMIT;
use crate::fixed::half;
use crate::fixed::half_spec;
use crate::fixed::lemma_half_bound;

/// Why a call was rejected.
#[derive(Clone, Copy, Debug, PartialEq, Eq, Structural)]
pub enum PostprocessError {
    /// The anchor table or the stride list was rejected at construction.
    InvalidConfig,
    /// An evaluation input was malformed (mismatched lengths or shapes).
    InvalidInput,
}

/// Mathematical view of one candidate row. Coordinates are corner-form
/// fixed-point values; `score` is a fixed-point confidence; `class` is a
/// class id.
pub struct CandModel {
    pub x1: int,
    pub y1: int,
    pub x2: int,
    pub y2: int,
    pub score: int,
    pub class: int,
}

/// A row whose coordinates and class id are small enough for suppression
/// arithmetic to stay exact.
pub open spec fn cand_ok(c: CandModel) -> bool {
    &&& -COORD_LIMIT <= c.x1 <= COORD_LIMIT
    &&& -COORD_LIMIT <= c.y1 <= COORD_LIMIT
    &&& -COORD_LIMIT <= c.x2 <= COORD_LIMIT
    &&& -COORD_LIMIT <= c.y2 <= COORD_LIMIT
    &&& 0 <= c.class <= CLASS_LIMIT
}

/// One materialized candidate row.
#[derive(Clone, Copy, Debug, PartialEq, Eq, Structural)]
pub struct Candidate {
    pub x1: i64,
    pub y1: i64,
    pub x2: i64,
    pub y2: i64,
    pub score: i64,
    pub class: i64,
}

impl View for Candidate {
    type V = CandModel;

    open spec fn view(&self) -> CandModel {
        CandModel {
            x1: self.x1 as int,
            y1: self.y1 as int,
            x2: self.x2 as int,
            y2: self.y2 as int,
            score: self.score as int,
            class: self.class as int,
        }
    }
}

/// The rows described by six parallel columns of equal length.
pub open spec fn zip_rows(
    x1: Seq<i64>,
    y1: Seq<i64>,
    x2: Seq<i64>,
    y2: Seq<i64>,
    scores: Seq<i64>,
    classes: Seq<i64>,
) -> Seq<CandModel> {
    Seq::new(
        x1.len(),
        |i: int|
            CandModel {
                x1: x1[i] as int,
                y1: y1[i] as int,
                x2: x2[i] as int,
                y2: y2[i] as int,
                score: scores[i] as int,
                class: classes[i] as int,
            },
    )
}

/// Detection boxes stored as parallel columns, one per attribute, so that the
/// bulk arithmetic of decoding can run over whole columns at once.
#[derive(Clone, Debug)]
pub struct DetectionBoxes {
    pub x1: Vec<i64>,
    pub y1: Vec<i64>,
    pub x2: Vec<i64>,
    pub y2: Vec<i64>,
    pub scores: Vec<i64>,
    pub classes: Vec<i64>,
    pub len: usize,
}

impl DetectionBoxes {
    /// All six columns hold exactly `len` entries.
    pub open spec fn wf(&self) -> bool {
        &&& self.x1@.len() == self.len
        &&& self.y1@.len() == self.len
        &&& self.x2@.len() == self.len
        &&& self.y2@.len() == self.len
        &&& self.scores@.len() == self.len
        &&& self.classes@.len() == self.len
    }

    /// The rows of the set, in storage order.
    pub open spec fn rows(&self) -> Seq<CandModel> {
        zip_rows(self.x1@, self.y1@, self.x2@, self.y2@, self.scores@, self.classes@)
    }

    /// The zero-length set.
    pub fn empty() -> (r: Self)
        ensures
            r.wf(),
            r.len == 0,
            r.rows() =~= Seq::<CandModel>::empty(),
    {
        DetectionBoxes {
            x1: Vec::new(),
            y1: Vec::new(),
            x2: Vec::new(),
            y2: Vec::new(),
            scores: Vec::new(),
            classes: Vec::new(),
            len: 0,
        }
    }

    /// Builds a set from six columns; rejected unless all six have the same
    /// length.
    pub fn new(
        x1: Vec<i64>,
        y1: Vec<i64>,
        x2: Vec<i64>,
        y2: Vec<i64>,
        scores: Vec<i64>,
        classes: Vec<i64>,
    ) -> (r: Result<Self, PostprocessError>)
        ensures
            match r {
                Ok(db) => {
                    &&& db.wf()
                    &&& db.x1@ == x1@ && db.y1@ == y1@ && db.x2@ == x2@ && db.y2@ == y2@
                    &&& db.scores@ == scores@ && db.classes@ == classes@
                    &&& db.rows() == zip_rows(x1@, y1@, x2@, y2@, scores@, classes@)
                    &&& y1@.len() == x1@.len() && x2@.len() == x1@.len() && y2@.len()
                        == x1@.len() && scores@.len() == x1@.len() && classes@.len() == x1@.len()
                },
                Err(e) => {
                    &&& e == PostprocessError::InvalidInput
                    &&& !(y1@.len() == x1@.len() && x2@.len() == x1@.len() && y2@.len()
                        == x1@.len() && scores@.len() == x1@.len() && classes@.len() == x1@.len())
                },
            },
    {
        let n = x1.len();
        if y1.len() != n || x2.len() != n || y2.len() != n || scores.len() != n || classes.len()
            != n {
            return Err(PostprocessError::InvalidInput);
        }
        Ok(DetectionBoxes { x1, y1, x2, y2, scores, classes, len: n })
    }

    /// Concatenates six columns onto the set. Either all six columns extend
    /// and `len` grows, or (on a length mismatch) nothing changes at all.
    pub fn append(
        &mut self,
        x1: Vec<i64>,
        y1: Vec<i64>,
        x2: Vec<i64>,
        y2: Vec<i64>,
        scores: Vec<i64>,
        classes: Vec<i64>,
    ) -> (r: Result<(), PostprocessError>)
        requires
            old(self).wf(),
            old(self).len + x1@.len() <= usize::MAX,
        ensures
            match r {
                Ok(()) => {
                    &&& final(self).wf()
                    &&& final(self).rows() == old(self).rows() + zip_rows(
                        x1@, y1@, x2@, y2@, scores@, classes@,
                    )
                    &&& final(self).len == old(self).len + x1@.len()
                    &&& y1@.len() == x1@.len() && x2@.len() == x1@.len() && y2@.len()
                        == x1@.len() && scores@.len() == x1@.len() && classes@.len() == x1@.len()
                },
                Err(e) => {
                    &&& e == PostprocessError::InvalidInput
                    &&& *final(self) == *old(self)
                    &&& !(y1@.len() == x1@.len() && x2@.len() == x1@.len() && y2@.len()
                        == x1@.len() && scores@.len() == x1@.len() && classes@.len() == x1@.len())
                },
            },
    {
        let n = x1.len();
        if y1.len() != n || x2.len() != n || y2.len() != n || scores.len() != n || classes.len()
            != n {
            return Err(PostprocessError::InvalidInput);
        }
        let mut cx1 = x1;
        let mut cy1 = y1;
        let mut cx2 = x2;
        let mut cy2 = y2;
        let mut cs = scores;
        let mut cc = classes;
        let ghost ox1 = cx1@;
        let ghost oy1 = cy1@;
        let ghost ox2 = cx2@;
        let ghost oy2 = cy2@;
        let ghost os = cs@;
        let ghost oc = cc@;
        self.x1.append(&mut cx1);
        self.y1.append(&mut cy1);
        self.x2.append(&mut cx2);
        self.y2.append(&mut cy2);
        self.scores.append(&mut cs);
        self.classes.append(&mut cc);
        self.len = self.len + n;
        proof {
            assert(self.rows() =~= old(self).rows() + zip_rows(ox1, oy1, ox2, oy2, os, oc));
        }
        Ok(())
    }
}

/// Converts columns of center-form boxes (center, extent) into corner-form
/// columns `(x1, y1, x2, y2)`; extents are halved with truncation toward
/// zero. Rejected unless the four columns have one common length.
pub fn centered_box_to_ltrb_bulk(
    pcy: &Vec<i64>,
    pcx: &Vec<i64>,
    pw: &Vec<i64>,
    ph: &Vec<i64>,
) -> (r: Result<(Vec<i64>, Vec<i64>, Vec<i64>, Vec<i64>), PostprocessError>)
    requires
        forall|i: int| 0 <= i < pcy@.len() ==> -COORD_LIMIT <= #[trigger] pcy@[i] <= COORD_LIMIT,
        forall|i: int| 0 <= i < pcx@.len() ==> -COORD_LIMIT <= #[trigger] pcx@[i] <= COORD_LIMIT,
        forall|i: int| 0 <= i < pw@.len() ==> -COORD_LIMIT <= #[trigger] pw@[i] <= COORD_LIMIT,
        forall|i: int| 0 <= i < ph@.len() ==> -COORD_LIMIT <= #[trigger] ph@[i] <= COORD_LIMIT,
    ensures
        match r {
            Ok(out) => {
                &&& pcx@.len() == pcy@.len() && pw@.len() == pcy@.len() && ph@.len() == pcy@.len()
                &&& out.0@.len() == pcy@.len() && out.1@.len() == pcy@.len() && out.2@.len()
                    == pcy@.len() && out.3@.len() == pcy@.len()
                &&& forall|i: int|
                    0 <= i < pcy@.len() ==> #[trigger] out.0@[i] as int == pcx@[i] - half_spec(
                        pw@[i] as int,
                    )
                &&& forall|i: int|
                    0 <= i < pcy@.len() ==> #[trigger] out.1@[i] as int == pcy@[i] - half_spec(
                        ph@[i] as int,
                    )
                &&& forall|i: int|
                    0 <= i < pcy@.len() ==> #[trigger] out.2@[i] as int == pcx@[i] + half_spec(
                        pw@[i] as int,
                    )
                &&& forall|i: int|
                    0 <= i < pcy@.len() ==> #[trigger] out.3@[i] as int == pcy@[i] + half_spec(
                        ph@[i] as int,
                    )
            },
            Err(e) => {
                &&& e == PostprocessError::InvalidInput
                &&& !(pcx@.len() == pcy@.len() && pw@.len() == pcy@.len() && ph@.len()
                    == pcy@.len())
            },
        },
{
    let n = pcy.len();
    if pcx.len() != n || pw.len() != n || ph.len() != n {
        return Err(PostprocessError::InvalidInput);
    }
    let mut x1: Vec<i64> = Vec::new();
    let mut y1: Vec<i64> = Vec::new();
    let mut x2: Vec<i64> = Vec::new();
    let mut y2: Vec<i64> = Vec::new();
    let mut i: usize = 0;
    while i < n
        invariant
            n == pcy@.len(),
            pcx@.len() == n && pw@.len() == n && ph@.len() == n,
            i <= n,
            x1@.len() == i && y1@.len() == i && x2@.len() == i && y2@.len() == i,
            forall|j: int| 0 <= j < pcy@.len() ==> -COORD_LIMIT <= #[trigger] pcy@[j] <= COORD_LIMIT,
            forall|j: int| 0 <= j < pcx@.len() ==> -COORD_LIMIT <= #[trigger] pcx@[j] <= COORD_LIMIT,
            forall|j: int| 0 <= j < pw@.len() ==> -COORD_LIMIT <= #[trigger] pw@[j] <= COORD_LIMIT,
            forall|j: int| 0 <= j < ph@.len() ==> -COORD_LIMIT <= #[trigger] ph@[j] <= COORD_LIMIT,
            forall|j: int| 0 <= j < i ==> #[trigger] x1@[j] as int == pcx@[j] - half_spec(pw@[j] as int),
            forall|j: int| 0 <= j < i ==> #[trigger] y1@[j] as int == pcy@[j] - half_spec(ph@[j] as int),
            forall|j: int| 0 <= j < i ==> #[trigger] x2@[j] as int == pcx@[j] + half_spec(pw@[j] as int),
            forall|j: int| 0 <= j < i ==> #[trigger] y2@[j] as int == pcy@[j] + half_spec(ph@[j] as int),
        decreases n - i,
    {
        proof {
            lemma_half_bound(pw@[i as int] as int, COORD_LIMIT as int);
            lemma_half_bound(ph@[i as int] as int, COORD_LIMIT as int);
        }
        let hw = half(pw[i]);
        let hh = half(ph[i]);
        x1.push(pcx[i] - hw);
        y1.push(pcy[i] - hh);
        x2.push(pcx[i] + hw);
        y2.push(pcy[i] + hh);
        i = i + 1;
    }
    Ok((x1, y1, x2, y2))
}

} // verus!

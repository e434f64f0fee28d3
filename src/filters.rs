//! Filters over coordinate vectors and the results they produce.
//!
//! Coordinate values reach this module as order keys: signed integers whose
//! order and equality are those of the real values they stand for. A filter
//! bound is a key of the same kind.
use vstd::prelude::*;
use crate::error::{ErrorView, ExtractError};
use crate::names::{is_first_position, lemma_first_position_unique, position_of};

verus! {

/// What a filter result says, as values: the indices kept along one
/// dimension, or the points kept over several dimensions (one entry per
/// dimension, in the order of `dims`).
pub enum ResultModel {
    Single { dimension: Seq<char>, indices: Seq<usize> },
    Explicit { dims: Seq<Seq<char>>, points: Seq<Seq<usize>> },
}

/// The pairs as two-entry points.
pub open spec fn pair_points(pairs: Seq<(usize, usize)>) -> Seq<Seq<usize>> {
    pairs.map_values(|p: (usize, usize)| seq![p.0, p.1])
}

/// The triplets as three-entry points.
pub open spec fn triplet_points(triplets: Seq<(usize, usize, usize)>) -> Seq<Seq<usize>> {
    triplets.map_values(|t: (usize, usize, usize)| seq![t.0, t.1, t.2])
}

/// What a filter found, tied to the dimensions it speaks of.
#[derive(Debug, Clone)]
pub enum FilterResult {
    /// Surviving positions along one dimension.
    Single { dimension: String, indices: Vec<usize> },
    /// Surviving joint positions along two dimensions; the first entry of a
    /// pair indexes `lat_dimension`.
    Pairs { lat_dimension: String, lon_dimension: String, pairs: Vec<(usize, usize)> },
    /// Surviving joint positions along three dimensions, in the order
    /// time, lat, lon.
    Triplets {
        time_dimension: String,
        lat_dimension: String,
        lon_dimension: String,
        triplets: Vec<(usize, usize, usize)>,
    },
}

impl FilterResult {
    pub open spec fn model(&self) -> ResultModel {
        match self {
            FilterResult::Single { dimension, indices } => ResultModel::Single {
                dimension: dimension@,
                indices: indices@,
            },
            FilterResult::Pairs { lat_dimension, lon_dimension, pairs } => ResultModel::Explicit {
                dims: seq![lat_dimension@, lon_dimension@],
                points: pair_points(pairs@),
            },
            FilterResult::Triplets { time_dimension, lat_dimension, lon_dimension, triplets } => {
                ResultModel::Explicit {
                    dims: seq![time_dimension@, lat_dimension@, lon_dimension@],
                    points: triplet_points(triplets@),
                }
            },
        }
    }

    /// This is a single-dimension result for `dim` holding exactly `idx`.
    pub open spec fn is_single(&self, dim: Seq<char>, idx: Seq<usize>) -> bool {
        self matches FilterResult::Single { dimension, indices } && dimension@ == dim
            && indices@ == idx
    }

    /// This is a pair result for dimensions `a` and `b` holding exactly `ps`.
    pub open spec fn is_pairs(&self, a: Seq<char>, b: Seq<char>, ps: Seq<(usize, usize)>) -> bool {
        self matches FilterResult::Pairs { lat_dimension, lon_dimension, pairs }
            && lat_dimension@ == a && lon_dimension@ == b && pairs@ == ps
    }

    /// This is a triplet result for dimensions `t`, `a` and `b` holding exactly `ts`.
    pub open spec fn is_triplets(
        &self,
        t: Seq<char>,
        a: Seq<char>,
        b: Seq<char>,
        ts: Seq<(usize, usize, usize)>,
    ) -> bool {
        self matches FilterResult::Triplets {
            time_dimension,
            lat_dimension,
            lon_dimension,
            triplets,
        } && time_dimension@ == t && lat_dimension@ == a && lon_dimension@ == b && triplets@ == ts
    }

    /// The number of entries the filter kept (with repeats).
    pub open spec fn spec_len(&self) -> nat {
        match self {
            FilterResult::Single { indices, .. } => indices@.len(),
            FilterResult::Pairs { pairs, .. } => pairs@.len(),
            FilterResult::Triplets { triplets, .. } => triplets@.len(),
        }
    }

    pub fn as_single(&self) -> (r: Option<(&String, &Vec<usize>)>)
        ensures
            match self {
                FilterResult::Single { dimension, indices } => r == Some((dimension, indices)),
                _ => r is None,
            },
    {
        match self {
            FilterResult::Single { dimension, indices } => Some((dimension, indices)),
            _ => None,
        }
    }

    pub fn as_pairs(&self) -> (r: Option<(&String, &String, &Vec<(usize, usize)>)>)
        ensures
            match self {
                FilterResult::Pairs { lat_dimension, lon_dimension, pairs } => r == Some(
                    (lat_dimension, lon_dimension, pairs),
                ),
                _ => r is None,
            },
    {
        match self {
            FilterResult::Pairs { lat_dimension, lon_dimension, pairs } => Some(
                (lat_dimension, lon_dimension, pairs),
            ),
            _ => None,
        }
    }

    pub fn as_triplets(&self) -> (r: Option<(&String, &String, &String, &Vec<(usize, usize, usize)>)>)
        ensures
            match self {
                FilterResult::Triplets {
                    time_dimension,
                    lat_dimension,
                    lon_dimension,
                    triplets,
                } => r == Some((time_dimension, lat_dimension, lon_dimension, triplets)),
                _ => r is None,
            },
    {
        match self {
            FilterResult::Triplets { time_dimension, lat_dimension, lon_dimension, triplets } => {
                Some((time_dimension, lat_dimension, lon_dimension, triplets))
            },
            _ => None,
        }
    }

    pub fn len(&self) -> (r: usize)
        ensures
            r == self.spec_len(),
    {
        match self {
            FilterResult::Single { indices, .. } => indices.len(),
            FilterResult::Pairs { pairs, .. } => pairs.len(),
            FilterResult::Triplets { triplets, .. } => triplets.len(),
        }
    }

    pub fn is_empty(&self) -> (r: bool)
        ensures
            r == (self.spec_len() == 0),
    {
        self.len() == 0
    }
}

/// The order keys of one coordinate vector, under the dimension's name.
#[derive(Debug, Clone)]
pub struct CoordinateVector {
    pub name: String,
    pub keys: Vec<i64>,
}

/// The coordinate vectors that a data source offers.
#[derive(Debug, Clone)]
pub struct CoordinateTable {
    pub vectors: Vec<CoordinateVector>,
}

impl CoordinateTable {
    pub open spec fn names(&self) -> Seq<Seq<char>> {
        self.vectors@.map_values(|v: CoordinateVector| v.name@)
    }

    /// The keys of the first vector named `name`, if there is one.
    pub open spec fn lookup(&self, name: Seq<char>) -> Option<Seq<i64>> {
        match position_of(self.names(), name) {
            Some(k) => Some(self.vectors@[k].keys@),
            None => None,
        }
    }

    /// The keys of the first vector named `name`.
    pub fn get(&self, name: &String) -> (r: Option<&Vec<i64>>)
        ensures
            match self.lookup(name@) {
                Some(keys) => r matches Some(v) && v@ == keys,
                None => r is None,
            },
    {
        let ghost nv = self.names();
        let mut i: usize = 0;
        while i < self.vectors.len()
            invariant
                i <= self.vectors.len(),
                nv == self.names(),
                forall|j: int| 0 <= j < i ==> nv[j] != name@,
            decreases self.vectors.len() - i,
        {
            if self.vectors[i].name == *name {
                proof {
                    assert(is_first_position(nv, name@, i as int));
                    lemma_first_position_unique(nv, name@, i as int);
                }
                return Some(&self.vectors[i].keys);
            }
            i += 1;
        }
        assert(!exists|k: int| is_first_position(nv, name@, k));
        None
    }
}

/// `r` failed because no dimension named `name` was found.
pub open spec fn not_found(r: Result<FilterResult, ExtractError>, name: Seq<char>) -> bool {
    r matches Err(ExtractError::DimensionNotFound(n)) && n@ == name
}

/// Keeps the positions whose coordinate lies in `[min_value, max_value]`.
#[derive(Debug, Clone)]
pub struct NCRangeFilter {
    pub dimension_name: String,
    pub min_value: i64,
    pub max_value: i64,
}

impl NCRangeFilter {
    pub fn new(dimension_name: &str, min_value: i64, max_value: i64) -> (r: Self)
        ensures
            r.dimension_name@ == dimension_name@,
            r.min_value == min_value,
            r.max_value == max_value,
    {
        NCRangeFilter { dimension_name: dimension_name.to_owned(), min_value, max_value }
    }

    pub fn apply(&self, coords: &CoordinateTable) -> (r: Result<FilterResult, ExtractError>)
        ensures
            match coords.lookup(self.dimension_name@) {
                Some(keys) => r matches Ok(res) && res.is_single(
                    self.dimension_name@,
                    range_indices(keys, self.min_value, self.max_value),
                ),
                None => not_found(r, self.dimension_name@),
            },
    {
        match coords.get(&self.dimension_name) {
            Some(keys) => Ok(
                FilterResult::Single {
                    dimension: self.dimension_name.clone(),
                    indices: range_indices_exec(keys, self.min_value, self.max_value),
                },
            ),
            None => Err(ExtractError::DimensionNotFound(self.dimension_name.clone())),
        }
    }
}

/// Keeps the positions whose coordinate equals one of `values`.
#[derive(Debug, Clone)]
pub struct NCListFilter {
    pub dimension_name: String,
    pub values: Vec<i64>,
}

impl NCListFilter {
    pub fn new(dimension_name: &str, values: Vec<i64>) -> (r: Self)
        ensures
            r.dimension_name@ == dimension_name@,
            r.values@ == values@,
    {
        NCListFilter { dimension_name: dimension_name.to_owned(), values }
    }

    pub fn apply(&self, coords: &CoordinateTable) -> (r: Result<FilterResult, ExtractError>)
        ensures
            match coords.lookup(self.dimension_name@) {
                Some(keys) => r matches Ok(res) && res.is_single(
                    self.dimension_name@,
                    list_indices(keys, self.values@),
                ),
                None => not_found(r, self.dimension_name@),
            },
    {
        match coords.get(&self.dimension_name) {
            Some(keys) => Ok(
                FilterResult::Single {
                    dimension: self.dimension_name.clone(),
                    indices: list_indices_exec(keys, &self.values),
                },
            ),
            None => Err(ExtractError::DimensionNotFound(self.dimension_name.clone())),
        }
    }
}

/// Keeps the `(lat, lon)` position pairs that lie near one of the target points:
/// each point is given as one key window per dimension.
#[derive(Debug, Clone)]
pub struct NC2DPointFilter {
    pub lat_dimension_name: String,
    pub lon_dimension_name: String,
    pub points: Vec<(KeyWindow, KeyWindow)>,
}

impl NC2DPointFilter {
    pub fn new(lat_dimension_name: &str, lon_dimension_name: &str, points: Vec<(KeyWindow, KeyWindow)>) -> (r: Self)
        ensures
            r.lat_dimension_name@ == lat_dimension_name@,
            r.lon_dimension_name@ == lon_dimension_name@,
            r.points@ == points@,
    {
        NC2DPointFilter {
            lat_dimension_name: lat_dimension_name.to_owned(),
            lon_dimension_name: lon_dimension_name.to_owned(),
            points,
        }
    }

    pub fn apply(&self, coords: &CoordinateTable) -> (r: Result<FilterResult, ExtractError>)
        ensures
            match (coords.lookup(self.lat_dimension_name@), coords.lookup(self.lon_dimension_name@)) {
                (Some(a), Some(b)) => r matches Ok(res) && res.is_pairs(
                    self.lat_dimension_name@,
                    self.lon_dimension_name@,
                    point_pairs(a, b, self.points@),
                ),
                (None, _) => not_found(r, self.lat_dimension_name@),
                (Some(_), None) => not_found(r, self.lon_dimension_name@),
            },
    {
        let a = match coords.get(&self.lat_dimension_name) {
            Some(a) => a,
            None => { return Err(ExtractError::DimensionNotFound(self.lat_dimension_name.clone())) },
        };
        let b = match coords.get(&self.lon_dimension_name) {
            Some(b) => b,
            None => { return Err(ExtractError::DimensionNotFound(self.lon_dimension_name.clone())) },
        };
        Ok(
            FilterResult::Pairs {
                lat_dimension: self.lat_dimension_name.clone(),
                lon_dimension: self.lon_dimension_name.clone(),
                pairs: point_pairs_exec(a, b, &self.points),
            },
        )
    }
}

/// Keeps the `(time, lat, lon)` triplets whose time coordinate is one of
/// `steps` and whose `(lat, lon)` lies near one of the target points.
#[derive(Debug, Clone)]
pub struct NC3DPointFilter {
    pub time_dimension_name: String,
    pub lat_dimension_name: String,
    pub lon_dimension_name: String,
    pub steps: Vec<i64>,
    pub points: Vec<(KeyWindow, KeyWindow)>,
}

impl NC3DPointFilter {
    pub fn new(
        time_dimension_name: &str,
        lat_dimension_name: &str,
        lon_dimension_name: &str,
        steps: Vec<i64>,
        points: Vec<(KeyWindow, KeyWindow)>,
    ) -> (r: Self)
        ensures
            r.time_dimension_name@ == time_dimension_name@,
            r.lat_dimension_name@ == lat_dimension_name@,
            r.lon_dimension_name@ == lon_dimension_name@,
            r.steps@ == steps@,
            r.points@ == points@,
    {
        NC3DPointFilter {
            time_dimension_name: time_dimension_name.to_owned(),
            lat_dimension_name: lat_dimension_name.to_owned(),
            lon_dimension_name: lon_dimension_name.to_owned(),
            steps,
            points,
        }
    }

    pub fn apply(&self, coords: &CoordinateTable) -> (r: Result<FilterResult, ExtractError>)
        ensures
            match (
                coords.lookup(self.time_dimension_name@),
                coords.lookup(self.lat_dimension_name@),
                coords.lookup(self.lon_dimension_name@),
            ) {
                (Some(t), Some(a), Some(b)) => r matches Ok(res) && res.is_triplets(
                    self.time_dimension_name@,
                    self.lat_dimension_name@,
                    self.lon_dimension_name@,
                    with_times(point_pairs(a, b, self.points@), list_indices(t, self.steps@)),
                ),
                (None, _, _) => not_found(r, self.time_dimension_name@),
                (Some(_), None, _) => not_found(r, self.lat_dimension_name@),
                (Some(_), Some(_), None) => not_found(r, self.lon_dimension_name@),
            },
    {
        let t = match coords.get(&self.time_dimension_name) {
            Some(t) => t,
            None => { return Err(ExtractError::DimensionNotFound(self.time_dimension_name.clone())) },
        };
        let a = match coords.get(&self.lat_dimension_name) {
            Some(a) => a,
            None => { return Err(ExtractError::DimensionNotFound(self.lat_dimension_name.clone())) },
        };
        let b = match coords.get(&self.lon_dimension_name) {
            Some(b) => b,
            None => { return Err(ExtractError::DimensionNotFound(self.lon_dimension_name.clone())) },
        };
        let times = list_indices_exec(t, &self.steps);
        let pairs = point_pairs_exec(a, b, &self.points);
        Ok(
            FilterResult::Triplets {
                time_dimension: self.time_dimension_name.clone(),
                lat_dimension: self.lat_dimension_name.clone(),
                lon_dimension: self.lon_dimension_name.clone(),
                triplets: with_times_exec(&pairs, &times),
            },
        )
    }
}

/// One configured filter of any kind.
#[derive(Debug, Clone)]
pub enum FilterConfig {
    Range(NCRangeFilter),
    List(NCListFilter),
    Point2D(NC2DPointFilter),
    Point3D(NC3DPointFilter),
}

impl FilterConfig {
    /// What the filter finds in `coords`, or the first dimension it names
    /// (in the order it names them) that has no coordinate vector.
    pub open spec fn spec_result(&self, coords: CoordinateTable) -> Result<ResultModel, Seq<char>> {
        match self {
            FilterConfig::Range(f) => match coords.lookup(f.dimension_name@) {
                Some(keys) => Ok(
                    ResultModel::Single {
                        dimension: f.dimension_name@,
                        indices: range_indices(keys, f.min_value, f.max_value),
                    },
                ),
                None => Err(f.dimension_name@),
            },
            FilterConfig::List(f) => match coords.lookup(f.dimension_name@) {
                Some(keys) => Ok(
                    ResultModel::Single {
                        dimension: f.dimension_name@,
                        indices: list_indices(keys, f.values@),
                    },
                ),
                None => Err(f.dimension_name@),
            },
            FilterConfig::Point2D(f) => match (
                coords.lookup(f.lat_dimension_name@),
                coords.lookup(f.lon_dimension_name@),
            ) {
                (Some(a), Some(b)) => Ok(
                    ResultModel::Explicit {
                        dims: seq![f.lat_dimension_name@, f.lon_dimension_name@],
                        points: pair_points(point_pairs(a, b, f.points@)),
                    },
                ),
                (None, _) => Err(f.lat_dimension_name@),
                (Some(_), None) => Err(f.lon_dimension_name@),
            },
            FilterConfig::Point3D(f) => match (
                coords.lookup(f.time_dimension_name@),
                coords.lookup(f.lat_dimension_name@),
                coords.lookup(f.lon_dimension_name@),
            ) {
                (Some(t), Some(a), Some(b)) => Ok(
                    ResultModel::Explicit {
                        dims: seq![f.time_dimension_name@, f.lat_dimension_name@, f.lon_dimension_name@],
                        points: triplet_points(
                            with_times(point_pairs(a, b, f.points@), list_indices(t, f.steps@)),
                        ),
                    },
                ),
                (None, _, _) => Err(f.time_dimension_name@),
                (Some(_), None, _) => Err(f.lat_dimension_name@),
                (Some(_), Some(_), None) => Err(f.lon_dimension_name@),
            },
        }
    }

    /// The kind's name as configuration files spell it.
    pub fn kind(&self) -> (r: &'static str)
        ensures
            r@ == match self {
                FilterConfig::Range(_) => "range"@,
                FilterConfig::List(_) => "list"@,
                FilterConfig::Point2D(_) => "2d_point"@,
                FilterConfig::Point3D(_) => "3d_point"@,
            },
    {
        match self {
            FilterConfig::Range(_) => "range",
            FilterConfig::List(_) => "list",
            FilterConfig::Point2D(_) => "2d_point",
            FilterConfig::Point3D(_) => "3d_point",
        }
    }

    /// Evaluates the filter against the coordinate vectors.
    pub fn apply(&self, coords: &CoordinateTable) -> (r: Result<FilterResult, ExtractError>)
        ensures
            match self {
                FilterConfig::Range(f) => NCRangeFilter::apply.ensures((f, coords), r),
                FilterConfig::List(f) => NCListFilter::apply.ensures((f, coords), r),
                FilterConfig::Point2D(f) => NC2DPointFilter::apply.ensures((f, coords), r),
                FilterConfig::Point3D(f) => NC3DPointFilter::apply.ensures((f, coords), r),
            },
            match self.spec_result(*coords) {
                Ok(m) => r matches Ok(res) && res.model() == m,
                Err(name) => r matches Err(e) && e.view() == ErrorView::DimensionNotFound(name),
            },
    {
        match self {
            FilterConfig::Range(f) => f.apply(coords),
            FilterConfig::List(f) => f.apply(coords),
            FilterConfig::Point2D(f) => f.apply(coords),
            FilterConfig::Point3D(f) => f.apply(coords),
        }
    }
}

/// The positions of `keys` whose key lies in `[lo, hi]`, ascending.
pub open spec fn range_indices(keys: Seq<i64>, lo: i64, hi: i64) -> Seq<usize>
    decreases keys.len(),
{
    if keys.len() == 0 {
        Seq::empty()
    } else {
        let front = range_indices(keys.drop_last(), lo, hi);
        if lo <= keys.last() && keys.last() <= hi {
            front.push((keys.len() - 1) as usize)
        } else {
            front
        }
    }
}

/// The positions of `keys` whose key is one of `values`, ascending.
pub open spec fn list_indices(keys: Seq<i64>, values: Seq<i64>) -> Seq<usize>
    decreases keys.len(),
{
    if keys.len() == 0 {
        Seq::empty()
    } else {
        let front = list_indices(keys.drop_last(), values);
        if values.contains(keys.last()) {
            front.push((keys.len() - 1) as usize)
        } else {
            front
        }
    }
}

/// Every `(i, j)` with `i` from `a` and `j` from `b`, `a` outermost.
pub open spec fn cross(a: Seq<usize>, b: Seq<usize>) -> Seq<(usize, usize)>
    decreases a.len(),
{
    if a.len() == 0 {
        Seq::empty()
    } else {
        cross(a.drop_last(), b) + b.map_values(|j: usize| (a.last(), j))
    }
}

/// A closed interval of order keys: the keys within a tolerance of a target.
#[derive(Debug, Clone, Copy, PartialEq, Eq)]
pub struct KeyWindow {
    pub min: i64,
    pub max: i64,
}

/// For each target point in turn, every `(i, j)` whose first key lies in the
/// point's first window and whose second key lies in its second window.
pub open spec fn point_pairs(a: Seq<i64>, b: Seq<i64>, points: Seq<(KeyWindow, KeyWindow)>) -> Seq<
    (usize, usize),
>
    decreases points.len(),
{
    if points.len() == 0 {
        Seq::empty()
    } else {
        let p = points.last();
        point_pairs(a, b, points.drop_last()) + cross(
            range_indices(a, p.0.min, p.0.max),
            range_indices(b, p.1.min, p.1.max),
        )
    }
}

/// Each pair of `pairs` in turn joined with every time index of `times`.
pub open spec fn with_times(pairs: Seq<(usize, usize)>, times: Seq<usize>) -> Seq<
    (usize, usize, usize),
>
    decreases pairs.len(),
{
    if pairs.len() == 0 {
        Seq::empty()
    } else {
        let p = pairs.last();
        with_times(pairs.drop_last(), times) + times.map_values(|t: usize| (t, p.0, p.1))
    }
}

/// The positions whose key lies in `[lo, hi]`.
pub fn range_indices_exec(keys: &Vec<i64>, lo: i64, hi: i64) -> (r: Vec<usize>)
    ensures
        r@ == range_indices(keys@, lo, hi),
{
    let mut r: Vec<usize> = Vec::new();
    let mut i: usize = 0;
    while i < keys.len()
        invariant
            i <= keys.len(),
            r@ == range_indices(keys@.subrange(0, i as int), lo, hi),
        decreases keys.len() - i,
    {
        let ghost next = keys@.subrange(0, i + 1);
        assert(next.drop_last() == keys@.subrange(0, i as int));
        if lo <= keys[i] && keys[i] <= hi {
            r.push(i);
        }
        i += 1;
    }
    assert(keys@.subrange(0, keys.len() as int) == keys@);
    r
}

fn contains_key(values: &Vec<i64>, v: i64) -> (r: bool)
    ensures
        r == values@.contains(v),
{
    let mut i: usize = 0;
    while i < values.len()
        invariant
            i <= values.len(),
            forall|j: int| 0 <= j < i ==> values@[j] != v,
        decreases values.len() - i,
    {
        if values[i] == v {
            assert(values@[i as int] == v);
            return true;
        }
        i += 1;
    }
    false
}

/// The positions whose key is one of `values`.
pub fn list_indices_exec(keys: &Vec<i64>, values: &Vec<i64>) -> (r: Vec<usize>)
    ensures
        r@ == list_indices(keys@, values@),
{
    let mut r: Vec<usize> = Vec::new();
    let mut i: usize = 0;
    while i < keys.len()
        invariant
            i <= keys.len(),
            r@ == list_indices(keys@.subrange(0, i as int), values@),
        decreases keys.len() - i,
    {
        let ghost next = keys@.subrange(0, i + 1);
        assert(next.drop_last() == keys@.subrange(0, i as int));
        if contains_key(values, keys[i]) {
            r.push(i);
        }
        i += 1;
    }
    assert(keys@.subrange(0, keys.len() as int) == keys@);
    r
}

/// Appends every `(i, j)` of `a` × `b` to `out`, `a` outermost.
fn push_cross(a: &Vec<usize>, b: &Vec<usize>, out: &mut Vec<(usize, usize)>)
    ensures
        final(out)@ == old(out)@ + cross(a@, b@),
{
    let ghost start = out@;
    let mut i: usize = 0;
    while i < a.len()
        invariant
            i <= a.len(),
            out@ == start + cross(a@.subrange(0, i as int), b@),
        decreases a.len() - i,
    {
        let x = a[i];
        let ghost before = out@;
        let mut j: usize = 0;
        while j < b.len()
            invariant
                j <= b.len(),
                out@ == before + b@.subrange(0, j as int).map_values(|y: usize| (x, y)),
            decreases b.len() - j,
        {
            out.push((x, b[j]));
            j += 1;
            assert(b@.subrange(0, j as int).map_values(|y: usize| (x, y)) =~= b@.subrange(
                0,
                j - 1,
            ).map_values(|y: usize| (x, y)).push((x, b@[j - 1])));
        }
        assert(b@.subrange(0, b.len() as int) == b@);
        let ghost prefix = a@.subrange(0, i + 1);
        assert(prefix.drop_last() == a@.subrange(0, i as int));
        assert(prefix.last() == x);
        i += 1;
        assert(out@ =~= start + cross(a@.subrange(0, i as int), b@));
    }
    assert(a@.subrange(0, a.len() as int) == a@);
}

/// Every `(i, j)` matched by some target point, point by point.
pub fn point_pairs_exec(a: &Vec<i64>, b: &Vec<i64>, points: &Vec<(KeyWindow, KeyWindow)>) -> (r: Vec<
    (usize, usize),
>)
    ensures
        r@ == point_pairs(a@, b@, points@),
{
    let mut r: Vec<(usize, usize)> = Vec::new();
    let mut p: usize = 0;
    while p < points.len()
        invariant
            p <= points.len(),
            r@ == point_pairs(a@, b@, points@.subrange(0, p as int)),
        decreases points.len() - p,
    {
        let (wa, wb) = points[p];
        let ia = range_indices_exec(a, wa.min, wa.max);
        let ib = range_indices_exec(b, wb.min, wb.max);
        push_cross(&ia, &ib, &mut r);
        let ghost next = points@.subrange(0, p + 1);
        assert(next.drop_last() == points@.subrange(0, p as int));
        p += 1;
    }
    assert(points@.subrange(0, points.len() as int) == points@);
    r
}

/// Each pair joined with every time index, time innermost.
pub fn with_times_exec(pairs: &Vec<(usize, usize)>, times: &Vec<usize>) -> (r: Vec<
    (usize, usize, usize),
>)
    ensures
        r@ == with_times(pairs@, times@),
{
    let mut r: Vec<(usize, usize, usize)> = Vec::new();
    let mut i: usize = 0;
    while i < pairs.len()
        invariant
            i <= pairs.len(),
            r@ == with_times(pairs@.subrange(0, i as int), times@),
        decreases pairs.len() - i,
    {
        let (pa, pb) = pairs[i];
        let ghost before = r@;
        let mut j: usize = 0;
        while j < times.len()
            invariant
                j <= times.len(),
                r@ == before + times@.subrange(0, j as int).map_values(
                    |t: usize| (t, pa, pb),
                ),
            decreases times.len() - j,
        {
            r.push((times[j], pa, pb));
            j += 1;
            assert(times@.subrange(0, j as int).map_values(|t: usize| (t, pa, pb))
                =~= times@.subrange(0, j - 1).map_values(|t: usize| (t, pa, pb)).push(
                (times@[j - 1], pa, pb),
            ));
        }
        assert(times@.subrange(0, times.len() as int) == times@);
        let ghost prefix = pairs@.subrange(0, i + 1);
        assert(prefix.drop_last() == pairs@.subrange(0, i as int));
        assert(prefix.last() == (pa, pb));
        i += 1;
    }
    assert(pairs@.subrange(0, pairs.len() as int) == pairs@);
    r
}

} // verus!

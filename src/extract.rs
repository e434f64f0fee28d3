//! The dimension index manager: per-dimension candidate sets, the explicit
//! override of multi-dimension filters, and the enumeration of surviving
//! coordinate tuples.
use vstd::prelude::*;
use crate::combinations::{ascending, cartesian_product, lemma_rows_view_push, product, rows_view};
use crate::error::{ErrorView, ExtractError};
use crate::filters::{CoordinateTable, pair_points, triplet_points, FilterConfig, FilterResult, ResultModel};
use crate::names::{find_position, lemma_names_view_push, names_view, position_of};

verus! {

/// `0, 1, ..., n - 1`.
pub open spec fn all_indices(n: usize) -> Seq<usize> {
    Seq::new(n as nat, |i: int| i as usize)
}

/// The entries of `s` that occur in `allowed`, in their order in `s`.
pub open spec fn keep_members(s: Seq<usize>, allowed: Seq<usize>) -> Seq<usize>
    decreases s.len(),
{
    if s.len() == 0 {
        s
    } else {
        let front = keep_members(s.drop_last(), allowed);
        if allowed.contains(s.last()) {
            front.push(s.last())
        } else {
            front
        }
    }
}

/// Every entry of `t` indexes its dimension: `t` has one entry per dimension
/// and each is below that dimension's size.
pub open spec fn tuple_in_bounds(sizes: Seq<usize>, t: Seq<usize>) -> bool {
    t.len() == sizes.len() && forall|k: int| 0 <= k < t.len() ==> t[k] < sizes[k]
}

/// The candidate lists with each fixed position replaced by the single choice `0`.
pub open spec fn base_choices(cands: Seq<Seq<usize>>, fixed: Seq<int>) -> Seq<Seq<usize>> {
    Seq::new(cands.len(), |k: int| if fixed.contains(k) { seq![0usize] } else { cands[k] })
}

/// `base` with position `fixed[m]` set to `values[m]` for each `m` in turn.
pub open spec fn place(base: Seq<usize>, fixed: Seq<int>, values: Seq<usize>) -> Seq<usize>
    decreases fixed.len(),
{
    if fixed.len() == 0 {
        base
    } else {
        place(base, fixed.drop_last(), values.drop_last()).update(fixed.last(), values.last())
    }
}

/// For each base tuple in turn, one tuple per point with the point's values
/// placed at the fixed positions.
pub open spec fn expand(bases: Seq<Seq<usize>>, fixed: Seq<int>, points: Seq<Seq<usize>>) -> Seq<
    Seq<usize>,
>
    decreases bases.len(),
{
    if bases.len() == 0 {
        Seq::empty()
    } else {
        expand(bases.drop_last(), fixed, points) + points.map_values(
            |p: Seq<usize>| place(bases.last(), fixed, p),
        )
    }
}

/// `s` with every repeat of an earlier entry left out.
pub open spec fn distinct_first(s: Seq<Seq<usize>>) -> Seq<Seq<usize>>
    decreases s.len(),
{
    if s.len() == 0 {
        s
    } else {
        let front = distinct_first(s.drop_last());
        if front.contains(s.last()) {
            front
        } else {
            front.push(s.last())
        }
    }
}

/// The tuples of a multi-dimension filter: every assignment of the other
/// dimensions' candidates (first dimension slowest) crossed with each
/// distinct point, the point innermost.
pub open spec fn explicit_tuples(cands: Seq<Seq<usize>>, fixed: Seq<int>, points: Seq<Seq<usize>>) -> Seq<
    Seq<usize>,
> {
    expand(product(base_choices(cands, fixed)), fixed, distinct_first(points))
}

/// The position of `name`, or 0 where it is absent.
pub open spec fn position_or_zero(names: Seq<Seq<char>>, name: Seq<char>) -> int {
    match position_of(names, name) {
        Some(k) => k,
        None => 0,
    }
}

/// The positions of each of `dims`.
pub open spec fn positions_of(names: Seq<Seq<char>>, dims: Seq<Seq<char>>) -> Seq<int> {
    dims.map_values(|d: Seq<char>| position_or_zero(names, d))
}

/// The state of a fresh manager for the given `(name, size)` dimensions:
/// every index of every dimension a candidate, no explicit override.
pub open spec fn initial_state(dimensions: Seq<(String, usize)>) -> IndexState {
    IndexState {
        names: dimensions.map_values(|d: (String, usize)| d.0@),
        sizes: dimensions.map_values(|d: (String, usize)| d.1),
        candidates: Seq::new(dimensions.len(), |k: int| all_indices(dimensions[k].1)),
        explicit: None,
    }
}

/// The state of a [`DimensionIndexManager`].
pub struct IndexState {
    /// The variable's dimensions, in order.
    pub names: Seq<Seq<char>>,
    /// The size of each dimension.
    pub sizes: Seq<usize>,
    /// The candidate indices of each dimension, ascending.
    pub candidates: Seq<Seq<usize>>,
    /// The tuples of the last multi-dimension filter, if one was folded in.
    pub explicit: Option<Seq<Seq<usize>>>,
}

impl IndexState {
    pub open spec fn wf(self) -> bool {
        &&& self.sizes.len() == self.names.len()
        &&& self.candidates.len() == self.names.len()
        &&& forall|k: int| 0 <= k < self.candidates.len() ==> ascending(#[trigger] self.candidates[k])
        &&& forall|k: int, m: int| 0 <= k < self.candidates.len() && 0 <= m < self.candidates[k].len()
            ==> #[trigger] self.candidates[k][m] < self.sizes[k]
        &&& self.explicit matches Some(e) ==> forall|i: int| 0 <= i < e.len() ==> tuple_in_bounds(self.sizes, #[trigger] e[i])
        &&& self.explicit matches Some(e) ==> e.no_duplicates()
    }

    /// The number of dimensions.
    pub open spec fn rank(self) -> nat {
        self.names.len()
    }

    /// The candidate set of dimension `k`.
    pub open spec fn candidate_set(self, k: int) -> Set<usize> {
        self.candidates[k].to_set()
    }

    /// The state after intersecting dimension `k`'s candidates with `indices`.
    pub open spec fn with_single(self, k: int, indices: Seq<usize>) -> IndexState {
        IndexState {
            candidates: self.candidates.update(k, keep_members(self.candidates[k], indices)),
            ..self
        }
    }

    /// The state after a multi-dimension filter fixing `dims` to `points`.
    pub open spec fn with_explicit(self, dims: Seq<Seq<char>>, points: Seq<Seq<usize>>) -> IndexState {
        IndexState {
            explicit: Some(explicit_tuples(self.candidates, positions_of(self.names, dims), points)),
            ..self
        }
    }

    /// Some dimension of `dims` is not one of the variable's.
    pub open spec fn missing_dimension(self, dims: Seq<Seq<char>>) -> bool {
        exists|m: int| 0 <= m < dims.len() && position_of(self.names, #[trigger] dims[m]) is None
    }

    /// Some point holds an index past the end of the dimension it fixes.
    pub open spec fn point_out_of_range(self, dims: Seq<Seq<char>>, points: Seq<Seq<usize>>) -> bool {
        exists|i: int, m: int| self.out_of_range_at(dims, points, i, m)
    }

    /// Entry `m` of point `i` lies past the end of the dimension it fixes.
    pub open spec fn out_of_range_at(self, dims: Seq<Seq<char>>, points: Seq<Seq<usize>>, i: int, m: int) -> bool {
        0 <= i < points.len() && 0 <= m < dims.len() && points[i][m] >= self.sizes[positions_of(
            self.names,
            dims,
        )[m]]
    }

    /// `(i, m)` is the first entry past its dimension's end, points in order
    /// and each point's entries in order.
    pub open spec fn is_first_out_of_range(self, dims: Seq<Seq<char>>, points: Seq<Seq<usize>>, i: int, m: int) -> bool {
        &&& self.out_of_range_at(dims, points, i, m)
        &&& forall|i2: int, m2: int| 0 <= i2 < i ==> !#[trigger] self.out_of_range_at(dims, points, i2, m2)
        &&& forall|m2: int| 0 <= m2 < m ==> !#[trigger] self.out_of_range_at(dims, points, i, m2)
    }

    /// `m` is the first entry of `dims` that is not one of the variable's dimensions.
    pub open spec fn is_first_missing(self, dims: Seq<Seq<char>>, m: int) -> bool {
        &&& 0 <= m < dims.len()
        &&& position_of(self.names, dims[m]) is None
        &&& forall|j: int| 0 <= j < m ==> position_of(self.names, #[trigger] dims[j]) is Some
    }

    /// What goes wrong in folding a multi-dimension result over `dims` with
    /// `points`, if anything: the first unknown dimension; else the first
    /// dimension named a second time; else the dimension of the first index
    /// past its dimension's end.
    pub open spec fn explicit_error(self, dims: Seq<Seq<char>>, points: Seq<Seq<usize>>) -> Option<ErrorView> {
        if self.missing_dimension(dims) {
            Some(ErrorView::DimensionNotFound(dims[choose|m: int| self.is_first_missing(dims, m)]))
        } else if repeats_name(dims) {
            Some(ErrorView::RepeatedDimension(dims[choose|b: int| is_first_repeat(dims, b)]))
        } else if self.point_out_of_range(dims, points) {
            let (i, m) = choose|i: int, m: int| self.is_first_out_of_range(dims, points, i, m);
            Some(ErrorView::IndexOutOfRange(dims[m]))
        } else {
            None
        }
    }

    /// The state after folding in a result, or the error that folding it gives.
    pub open spec fn fold(self, m: ResultModel) -> Result<IndexState, ErrorView> {
        match m {
            ResultModel::Single { dimension, indices } => match position_of(self.names, dimension) {
                Some(k) => Ok(self.with_single(k, indices)),
                None => Err(ErrorView::UnknownDimension(dimension)),
            },
            ResultModel::Explicit { dims, points } => match self.explicit_error(dims, points) {
                Some(e) => Err(e),
                None => Ok(self.with_explicit(dims, points)),
            },
        }
    }

    /// The state after evaluating each filter against `coords` and folding
    /// in its result, in order; or the error of the first filter whose
    /// evaluation or folding fails.
    pub open spec fn fold_filters(self, coords: CoordinateTable, filters: Seq<FilterConfig>) -> Result<IndexState, ErrorView>
        decreases filters.len(),
    {
        if filters.len() == 0 {
            Ok(self)
        } else {
            match self.fold_filters(coords, filters.drop_last()) {
                Ok(s) => match filters.last().spec_result(coords) {
                    Ok(m) => s.fold(m),
                    Err(name) => Err(ErrorView::DimensionNotFound(name)),
                },
                Err(e) => Err(e),
            }
        }
    }

    /// The state after folding in each result in order, or the error of the
    /// first that fails.
    pub open spec fn fold_results(self, results: Seq<ResultModel>) -> Result<IndexState, ErrorView>
        decreases results.len(),
    {
        if results.len() == 0 {
            Ok(self)
        } else {
            match self.fold_results(results.drop_last()) {
                Ok(s) => s.fold(results.last()),
                Err(e) => Err(e),
            }
        }
    }

    /// The surviving coordinate tuples: the explicit override where there is
    /// one, else the cartesian product of the candidate lists.
    pub open spec fn enumeration(self) -> Seq<Seq<usize>> {
        match self.explicit {
            Some(e) => e,
            None => product(self.candidates),
        }
    }
}


/// `dims` names some dimension twice.
pub open spec fn repeats_name(dims: Seq<Seq<char>>) -> bool {
    exists|b: int| is_first_repeat(dims, b)
}

/// `dims[b]` is the first entry equal to an earlier one.
pub open spec fn is_first_repeat(dims: Seq<Seq<char>>, b: int) -> bool {
    &&& 0 <= b < dims.len()
    &&& exists|a: int| 0 <= a < b && dims[a] == dims[b]
    &&& forall|b2: int, a: int| 0 <= a < b2 < b ==> #[trigger] dims[a] != #[trigger] dims[b2]
}

/// What folding a multi-dimension result over `dims` with `points` does: an
/// error leaves the state as it was; otherwise the result's tuples become
/// the explicit override, replacing any earlier one.
pub open spec fn explicit_outcome(
    old: IndexState,
    new: IndexState,
    r: Result<(), ExtractError>,
    dims: Seq<Seq<char>>,
    points: Seq<Seq<usize>>,
) -> bool {
    match old.explicit_error(dims, points) {
        Some(e) => r matches Err(x) && x.view() == e && new == old,
        None => r is Ok && new == old.with_explicit(dims, points),
    }
}

/// Keeping members keeps exactly the entries that are allowed, and keeps an
/// ascending list ascending.
pub proof fn lemma_keep_members(s: Seq<usize>, allowed: Seq<usize>)
    ensures
        forall|x: usize| #[trigger] keep_members(s, allowed).contains(x) <==> (s.contains(x)
            && allowed.contains(x)),
        ascending(s) ==> ascending(keep_members(s, allowed)),
    decreases s.len(),
{
    if s.len() > 0 {
        let front = s.drop_last();
        lemma_keep_members(front, allowed);
        assert forall|x: usize| #[trigger] s.contains(x) <==> (front.contains(x) || x == s.last()) by {
            if s.contains(x) {
                let i = choose|i: int| 0 <= i < s.len() && s[i] == x;
                if i < s.len() - 1 {
                    assert(front[i] == x);
                }
            }
            if front.contains(x) {
                let i = choose|i: int| 0 <= i < front.len() && front[i] == x;
                assert(s[i] == x);
            }
            if x == s.last() {
                assert(s[s.len() - 1] == x);
            }
        }
        let kf = keep_members(front, allowed);
        if allowed.contains(s.last()) {
            assert forall|x: usize| #[trigger] kf.push(s.last()).contains(x) <==> (kf.contains(x)
                || x == s.last()) by {
                if kf.push(s.last()).contains(x) {
                    let i = choose|i: int| 0 <= i < kf.len() + 1 && kf.push(s.last())[i] == x;
                    if i < kf.len() {
                        assert(kf[i] == x);
                    }
                }
                if kf.contains(x) {
                    let i = choose|i: int| 0 <= i < kf.len() && kf[i] == x;
                    assert(kf.push(s.last())[i] == x);
                }
                if x == s.last() {
                    assert(kf.push(s.last())[kf.len() as int] == x);
                }
            }
            if ascending(s) {
                assert(ascending(front));
                assert forall|i: int| 0 <= i < kf.len() implies kf[i] < s.last() by {
                    assert(kf.contains(kf[i]));
                    let j = choose|j: int| 0 <= j < front.len() && front[j] == kf[i];
                    assert(s[j] == kf[i]);
                }
            }
        }
    }
}

/// An ascending list repeats no entry.
pub proof fn lemma_ascending_no_duplicates(s: Seq<usize>)
    requires
        ascending(s),
    ensures
        s.no_duplicates(),
{
}

/// Leaving out repeats keeps only entries of the list it is given.
pub proof fn lemma_distinct_first_subset(s: Seq<Seq<usize>>, x: Seq<usize>)
    requires
        distinct_first(s).contains(x),
    ensures
        s.contains(x),
    decreases s.len(),
{
    if s.len() > 0 {
        let front = distinct_first(s.drop_last());
        if front.contains(x) {
            lemma_distinct_first_subset(s.drop_last(), x);
            let i = choose|i: int| 0 <= i < s.drop_last().len() && s.drop_last()[i] == x;
            assert(s[i] == x);
        } else {
            assert(x == s.last());
            assert(s[s.len() - 1] == x);
        }
    }
}

proof fn lemma_place(base: Seq<usize>, fixed: Seq<int>, values: Seq<usize>, sizes: Seq<usize>)
    requires
        base.len() == sizes.len(),
        fixed.len() == values.len(),
        forall|m: int| 0 <= m < fixed.len() ==> 0 <= #[trigger] fixed[m] < base.len(),
        forall|m: int| 0 <= m < fixed.len() ==> #[trigger] values[m] < sizes[fixed[m]],
    ensures
        place(base, fixed, values).len() == base.len(),
        forall|k: int| 0 <= k < base.len() && fixed.contains(k) ==> #[trigger] place(base, fixed, values)[k] < sizes[k],
        forall|k: int| 0 <= k < base.len() && !fixed.contains(k) ==> #[trigger] place(base, fixed, values)[k] == base[k],
    decreases fixed.len(),
{
    if fixed.len() > 0 {
        let f2 = fixed.drop_last();
        let v2 = values.drop_last();
        lemma_place(base, f2, v2, sizes);
        assert forall|k: int| 0 <= k < base.len() && k != fixed.last() implies (#[trigger] fixed.contains(k) <==> f2.contains(k)) by {
            if fixed.contains(k) {
                let m = choose|m: int| 0 <= m < fixed.len() && fixed[m] == k;
                assert(f2[m] == k);
            }
            if f2.contains(k) {
                let m = choose|m: int| 0 <= m < f2.len() && f2[m] == k;
                assert(fixed[m] == k);
            }
        }
        assert(fixed[fixed.len() - 1] == fixed.last());
        assert(values.last() < sizes[fixed.last()]);
    }
}

/// A copy of `v`.
fn copy_row(v: &Vec<usize>) -> (r: Vec<usize>)
    ensures
        r@ == v@,
{
    let mut r: Vec<usize> = Vec::new();
    let mut k: usize = 0;
    while k < v.len()
        invariant
            k <= v.len(),
            r@ == v@.subrange(0, k as int),
        decreases v.len() - k,
    {
        r.push(v[k]);
        k += 1;
        assert(r@ =~= v@.subrange(0, k as int));
    }
    assert(v@.subrange(0, v.len() as int) == v@);
    r
}

/// A copy of each row of `rows`.
fn copy_rows(rows: &Vec<Vec<usize>>) -> (r: Vec<Vec<usize>>)
    ensures
        rows_view(r@) == rows_view(rows@),
{
    let mut r: Vec<Vec<usize>> = Vec::new();
    let mut k: usize = 0;
    while k < rows.len()
        invariant
            k <= rows.len(),
            rows_view(r@) == rows_view(rows@).subrange(0, k as int),
        decreases rows.len() - k,
    {
        let row = copy_row(&rows[k]);
        proof {
            lemma_rows_view_push(r@, row);
        }
        r.push(row);
        k += 1;
        assert(rows_view(r@) =~= rows_view(rows@).subrange(0, k as int));
    }
    assert(rows_view(rows@).subrange(0, rows.len() as int) == rows_view(rows@));
    r
}

fn contains_index(v: &Vec<usize>, x: usize) -> (r: bool)
    ensures
        r == v@.contains(x),
{
    let mut i: usize = 0;
    while i < v.len()
        invariant
            i <= v.len(),
            forall|j: int| 0 <= j < i ==> v@[j] != x,
        decreases v.len() - i,
    {
        if v[i] == x {
            assert(v@[i as int] == x);
            return true;
        }
        i += 1;
    }
    false
}

fn rows_equal(a: &Vec<usize>, b: &Vec<usize>) -> (r: bool)
    ensures
        r == (a@ == b@),
{
    if a.len() != b.len() {
        return false;
    }
    let mut i: usize = 0;
    while i < a.len()
        invariant
            i <= a.len(),
            a.len() == b.len(),
            forall|j: int| 0 <= j < i ==> a@[j] == b@[j],
        decreases a.len() - i,
    {
        if a[i] != b[i] {
            return false;
        }
        i += 1;
    }
    assert(a@ =~= b@);
    true
}

fn contains_row(rows: &Vec<Vec<usize>>, row: &Vec<usize>) -> (r: bool)
    ensures
        r == rows_view(rows@).contains(row@),
{
    let ghost rv = rows_view(rows@);
    let mut i: usize = 0;
    while i < rows.len()
        invariant
            i <= rows.len(),
            rv == rows_view(rows@),
            forall|j: int| 0 <= j < i ==> rv[j] != row@,
        decreases rows.len() - i,
    {
        if rows_equal(&rows[i], row) {
            assert(rv[i as int] == row@);
            return true;
        }
        i += 1;
    }
    false
}

/// The entries of `s` that occur in `allowed`.
fn keep_members_exec(s: &Vec<usize>, allowed: &Vec<usize>) -> (r: Vec<usize>)
    ensures
        r@ == keep_members(s@, allowed@),
{
    let mut r: Vec<usize> = Vec::new();
    let mut i: usize = 0;
    while i < s.len()
        invariant
            i <= s.len(),
            r@ == keep_members(s@.subrange(0, i as int), allowed@),
        decreases s.len() - i,
    {
        let ghost next = s@.subrange(0, i + 1);
        assert(next.drop_last() == s@.subrange(0, i as int));
        if contains_index(allowed, s[i]) {
            r.push(s[i]);
        }
        i += 1;
    }
    assert(s@.subrange(0, s.len() as int) == s@);
    r
}

/// The rows of `rows` without repeats, first occurrences kept.
fn distinct_rows(rows: &Vec<Vec<usize>>) -> (r: Vec<Vec<usize>>)
    ensures
        rows_view(r@) == distinct_first(rows_view(rows@)),
{
    let ghost rv = rows_view(rows@);
    let mut r: Vec<Vec<usize>> = Vec::new();
    let mut i: usize = 0;
    while i < rows.len()
        invariant
            i <= rows.len(),
            rv == rows_view(rows@),
            rows_view(r@) == distinct_first(rv.subrange(0, i as int)),
        decreases rows.len() - i,
    {
        let ghost next = rv.subrange(0, i + 1);
        assert(next.drop_last() == rv.subrange(0, i as int));
        if !contains_row(&r, &rows[i]) {
            let row = copy_row(&rows[i]);
            proof {
                lemma_rows_view_push(r@, row);
            }
            r.push(row);
        }
        i += 1;
    }
    assert(rv.subrange(0, rows.len() as int) == rv);
    r
}

/// The positions as integers.
pub open spec fn as_ints(v: Seq<usize>) -> Seq<int> {
    v.map_values(|x: usize| x as int)
}

/// `base` with position `fixed[m]` set to `values[m]` for each `m` in turn.
fn place_exec(base: &Vec<usize>, fixed: &Vec<usize>, values: &Vec<usize>) -> (r: Vec<usize>)
    requires
        fixed.len() == values.len(),
        forall|m: int| 0 <= m < fixed.len() ==> #[trigger] fixed@[m] < base.len(),
    ensures
        r@ == place(base@, as_ints(fixed@), values@),
{
    let mut r = copy_row(base);
    let mut m: usize = 0;
    while m < fixed.len()
        invariant
            m <= fixed.len(),
            fixed.len() == values.len(),
            r.len() == base.len(),
            forall|j: int| 0 <= j < fixed.len() ==> #[trigger] fixed@[j] < base.len(),
            r@ == place(base@, as_ints(fixed@).subrange(0, m as int), values@.subrange(0, m as int)),
        decreases fixed.len() - m,
    {
        let ghost fs = as_ints(fixed@).subrange(0, m + 1);
        let ghost vs = values@.subrange(0, m + 1);
        assert(fs.drop_last() =~= as_ints(fixed@).subrange(0, m as int));
        assert(vs.drop_last() =~= values@.subrange(0, m as int));
        r.set(fixed[m], values[m]);
        m += 1;
    }
    assert(as_ints(fixed@).subrange(0, fixed.len() as int) =~= as_ints(fixed@));
    assert(values@.subrange(0, fixed.len() as int) =~= values@);
    r
}

/// Per-dimension candidate sets, folded from filter results, and the
/// enumeration of the coordinate tuples that survive them.
///
/// A single-dimension result intersects that dimension's candidates. A
/// multi-dimension result (pairs or triplets) builds an explicit list of
/// full tuples from the candidates as they stand and the result's distinct
/// points; a later multi-dimension result replaces that list rather than
/// intersecting with it. Where an explicit list exists it is the enumeration.
pub struct DimensionIndexManager {
    dimension_order: Vec<String>,
    dimension_sizes: Vec<usize>,
    dimension_indices: Vec<Vec<usize>>,
    explicit_combinations: Option<Vec<Vec<usize>>>,
}

impl View for DimensionIndexManager {
    type V = IndexState;

    closed spec fn view(&self) -> IndexState {
        IndexState {
            names: names_view(self.dimension_order@),
            sizes: self.dimension_sizes@,
            candidates: rows_view(self.dimension_indices@),
            explicit: match self.explicit_combinations {
                Some(e) => Some(rows_view(e@)),
                None => None,
            },
        }
    }
}

impl DimensionIndexManager {
    /// A manager for a variable with the given `(name, size)` dimensions, in
    /// order, every index of every dimension a candidate.
    pub fn new(dimensions: &Vec<(String, usize)>) -> (r: Self)
        ensures
            r@.wf(),
            r@ == initial_state(dimensions@),
            r@.names == dimensions@.map_values(|d: (String, usize)| d.0@),
            r@.sizes == dimensions@.map_values(|d: (String, usize)| d.1),
            forall|k: int| 0 <= k < r@.rank() ==> #[trigger] r@.candidates[k] == all_indices(r@.sizes[k]),
            r@.explicit is None,
    {
        let mut order: Vec<String> = Vec::new();
        let mut sizes: Vec<usize> = Vec::new();
        let mut indices: Vec<Vec<usize>> = Vec::new();
        let mut k: usize = 0;
        while k < dimensions.len()
            invariant
                k <= dimensions.len(),
                names_view(order@) == dimensions@.subrange(0, k as int).map_values(|d: (String, usize)| d.0@),
                sizes@ == dimensions@.subrange(0, k as int).map_values(|d: (String, usize)| d.1),
                indices.len() == k,
                forall|j: int| 0 <= j < k ==> #[trigger] indices@[j]@ == all_indices(sizes@[j]),
            decreases dimensions.len() - k,
        {
            let size = dimensions[k].1;
            let mut all: Vec<usize> = Vec::new();
            let mut i: usize = 0;
            while i < size
                invariant
                    i <= size,
                    all@ == all_indices(i),
                decreases size - i,
            {
                all.push(i);
                i += 1;
                assert(all@ =~= all_indices(i));
            }
            let name = dimensions[k].0.clone();
            proof {
                lemma_names_view_push(order@, name);
            }
            order.push(name);
            sizes.push(size);
            indices.push(all);
            k += 1;
            assert(names_view(order@) =~= dimensions@.subrange(0, k as int).map_values(|d: (String, usize)| d.0@));
            assert(sizes@ =~= dimensions@.subrange(0, k as int).map_values(|d: (String, usize)| d.1));
        }
        assert(dimensions@.subrange(0, dimensions.len() as int) == dimensions@);
        let r = DimensionIndexManager {
            dimension_order: order,
            dimension_sizes: sizes,
            dimension_indices: indices,
            explicit_combinations: None,
        };
        assert forall|k: int| 0 <= k < r@.rank() implies #[trigger] r@.candidates[k] == all_indices(r@.sizes[k]) by {
            assert(r@.candidates[k] == indices@[k]@);
        }
        assert(r@.candidates =~= initial_state(dimensions@).candidates);
        r
    }

    /// Folds one filter result into the state.
    pub fn apply_filter_result(&mut self, result: &FilterResult) -> (r: Result<(), ExtractError>)
        requires
            old(self)@.wf(),
        ensures
            final(self)@.wf(),
            match old(self)@.fold(result.model()) {
                Ok(st) => r is Ok && final(self)@ == st,
                Err(e) => r matches Err(x) && x.view() == e && final(self)@ == old(self)@,
            },
    {
        match result {
            FilterResult::Single { dimension, indices } => {
                match find_position(&self.dimension_order, dimension) {
                    Some(k) => {
                        let kept = keep_members_exec(&self.dimension_indices[k], indices);
                        proof {
                            lemma_keep_members(self@.candidates[k as int], indices@);
                            assert forall|m: int| 0 <= m < kept@.len() implies #[trigger] kept@[m] < self@.sizes[k as int] by {
                                assert(kept@.contains(kept@[m]));
                                let c = self@.candidates[k as int];
                                let j = choose|j: int| 0 <= j < c.len() && c[j] == kept@[m];
                                assert(c[j] < self@.sizes[k as int]);
                            }
                        }
                        let ghost prev = self@;
                        self.dimension_indices.set(k, kept);
                        assert(self@.candidates =~= prev.candidates.update(k as int, kept@));
                        assert(self@ == prev.with_single(k as int, indices@));
                        Ok(())
                    },
                    None => Err(ExtractError::UnknownDimension(dimension.clone())),
                }
            },
            FilterResult::Pairs { lat_dimension, lon_dimension, pairs } => {
                let mut dims: Vec<String> = Vec::new();
                dims.push(lat_dimension.clone());
                dims.push(lon_dimension.clone());
                let mut points: Vec<Vec<usize>> = Vec::new();
                let mut i: usize = 0;
                while i < pairs.len()
                    invariant
                        i <= pairs.len(),
                        rows_view(points@) == pair_points(pairs@).subrange(0, i as int),
                        forall|j: int| 0 <= j < points.len() ==> #[trigger] points@[j].len() == 2,
                    decreases pairs.len() - i,
                {
                    let (a, b) = pairs[i];
                    let mut p: Vec<usize> = Vec::new();
                    p.push(a);
                    p.push(b);
                    proof {
                        lemma_rows_view_push(points@, p);
                    }
                    assert(pair_points(pairs@)[i as int] == p@);
                    points.push(p);
                    i += 1;
                    assert(rows_view(points@) =~= pair_points(pairs@).subrange(0, i as int));
                }
                assert(pair_points(pairs@).subrange(0, pairs.len() as int) == pair_points(pairs@));
                assert(names_view(dims@) =~= seq![lat_dimension@, lon_dimension@]);
                self.apply_explicit(&dims, &points)
            },
            FilterResult::Triplets { time_dimension, lat_dimension, lon_dimension, triplets } => {
                let mut dims: Vec<String> = Vec::new();
                dims.push(time_dimension.clone());
                dims.push(lat_dimension.clone());
                dims.push(lon_dimension.clone());
                let mut points: Vec<Vec<usize>> = Vec::new();
                let mut i: usize = 0;
                while i < triplets.len()
                    invariant
                        i <= triplets.len(),
                        rows_view(points@) == triplet_points(triplets@).subrange(0, i as int),
                        forall|j: int| 0 <= j < points.len() ==> #[trigger] points@[j].len() == 3,
                    decreases triplets.len() - i,
                {
                    let (t, a, b) = triplets[i];
                    let mut p: Vec<usize> = Vec::new();
                    p.push(t);
                    p.push(a);
                    p.push(b);
                    proof {
                        lemma_rows_view_push(points@, p);
                    }
                    assert(triplet_points(triplets@)[i as int] == p@);
                    points.push(p);
                    i += 1;
                    assert(rows_view(points@) =~= triplet_points(triplets@).subrange(0, i as int));
                }
                assert(triplet_points(triplets@).subrange(0, triplets.len() as int) == triplet_points(triplets@));
                assert(names_view(dims@) =~= seq![time_dimension@, lat_dimension@, lon_dimension@]);
                self.apply_explicit(&dims, &points)
            },
        }
    }

    /// Builds the explicit tuples for points fixing the dimensions `dims`.
    fn apply_explicit(&mut self, dims: &Vec<String>, points: &Vec<Vec<usize>>) -> (r: Result<(), ExtractError>)
        requires
            old(self)@.wf(),
            forall|i: int| 0 <= i < points.len() ==> #[trigger] points@[i].len() == dims.len(),
        ensures
            final(self)@.wf(),
            explicit_outcome(old(self)@, final(self)@, r, names_view(dims@), rows_view(points@)),
    {
        let ghost st = self@;
        let ghost dv = names_view(dims@);
        let ghost pv = rows_view(points@);
        let n = self.dimension_order.len();
        let mut fixed: Vec<usize> = Vec::new();
        let mut m: usize = 0;
        while m < dims.len()
            invariant
                st == self@,
                st.wf(),
                n == st.rank(),
                dv == names_view(dims@),
                m <= dims.len(),
                fixed.len() == m,
                forall|j: int| 0 <= j < m ==> position_of(st.names, #[trigger] dv[j]) == Some(fixed@[j] as int),
                forall|j: int| 0 <= j < m ==> #[trigger] fixed@[j] < n,
            decreases dims.len() - m,
        {
            match find_position(&self.dimension_order, &dims[m]) {
                Some(k) => {
                    proof {
                        let c = choose|c: int| crate::names::is_first_position(st.names, dv[m as int], c);
                    }
                    fixed.push(k);
                },
                None => {
                    proof {
                        assert(position_of(st.names, dv[m as int]) is None);
                        assert(st.is_first_missing(dv, m as int));
                        let c = choose|c: int| st.is_first_missing(dv, c);
                        if c < m {
                            assert(position_of(st.names, dv[c]) == Some(fixed@[c] as int));
                        } else if c > m {
                            assert(position_of(st.names, dv[m as int]) is Some);
                        }
                        assert(dv[m as int] == dims@[m as int]@);
                    }
                    return Err(ExtractError::DimensionNotFound(dims[m].clone()));
                },
            }
            m += 1;
        }
        let ghost fi = as_ints(fixed@);
        assert(!st.missing_dimension(dv));
        assert(positions_of(st.names, dv) =~= fi);
        let mut b: usize = 0;
        while b < dims.len()
            invariant
                st == self@,
                st.wf(),
                dv == names_view(dims@),
                pv == rows_view(points@),
                !st.missing_dimension(dv),
                b <= dims.len(),
                forall|b2: int, a2: int| 0 <= a2 < b2 < b ==> #[trigger] dv[a2] != #[trigger] dv[b2],
            decreases dims.len() - b,
        {
            let mut a: usize = 0;
            while a < b
                invariant
                    st == self@,
                    st.wf(),
                    dv == names_view(dims@),
                    pv == rows_view(points@),
                    !st.missing_dimension(dv),
                    b < dims.len(),
                    a <= b,
                    forall|b2: int, a2: int| 0 <= a2 < b2 < b ==> #[trigger] dv[a2] != #[trigger] dv[b2],
                    forall|a2: int| 0 <= a2 < a ==> dv[a2] != dv[b as int],
                decreases b - a,
            {
                if dims[a] == dims[b] {
                    proof {
                        assert(dv[a as int] == dv[b as int]);
                        assert(is_first_repeat(dv, b as int));
                        let c = choose|c: int| is_first_repeat(dv, c);
                        if c < b {
                            let a2 = choose|a2: int| 0 <= a2 < c && dv[a2] == dv[c];
                            assert(dv[a2] != dv[c]);
                        } else if c > b {
                            assert(dv[a as int] != dv[b as int]);
                        }
                        assert(repeats_name(dv));
                    }
                    return Err(ExtractError::RepeatedDimension(dims[b].clone()));
                }
                a += 1;
            }
            b += 1;
        }
        assert(!repeats_name(dv)) by {
            if repeats_name(dv) {
                let c = choose|c: int| is_first_repeat(dv, c);
                let a2 = choose|a2: int| 0 <= a2 < c && dv[a2] == dv[c];
                assert(dv[a2] != dv[c]);
            }
        }
        let mut i: usize = 0;
        while i < points.len()
            invariant
                st == self@,
                st.wf(),
                n == st.rank(),
                dv == names_view(dims@),
                pv == rows_view(points@),
                fi == as_ints(fixed@),
                positions_of(st.names, dv) == fi,
                !st.missing_dimension(dv),
                !repeats_name(dv),
                forall|b2: int, a2: int| 0 <= a2 < b2 < dims.len() ==> #[trigger] dv[a2] != #[trigger] dv[b2],
                fixed.len() == dims.len(),
                forall|j: int| 0 <= j < fixed.len() ==> #[trigger] fixed@[j] < n,
                forall|q: int| 0 <= q < points.len() ==> #[trigger] points@[q].len() == dims.len(),
                i <= points.len(),
                forall|q: int, j: int| 0 <= q < i && 0 <= j < dims.len() ==> #[trigger] pv[q][j] < st.sizes[fi[j]],
            decreases points.len() - i,
        {
            let mut j: usize = 0;
            while j < dims.len()
                invariant
                    st == self@,
                    st.wf(),
                    n == st.rank(),
                    dv == names_view(dims@),
                    pv == rows_view(points@),
                    fi == as_ints(fixed@),
                    positions_of(st.names, dv) == fi,
                    !st.missing_dimension(dv),
                    !repeats_name(dv),
                    fixed.len() == dims.len(),
                    forall|q: int| 0 <= q < fixed.len() ==> #[trigger] fixed@[q] < n,
                    forall|q: int| 0 <= q < points.len() ==> #[trigger] points@[q].len() == dims.len(),
                    i < points.len(),
                    j <= dims.len(),
                    forall|q: int, l: int| 0 <= q < i && 0 <= l < dims.len() ==> #[trigger] pv[q][l] < st.sizes[fi[l]],
                    forall|l: int| 0 <= l < j ==> #[trigger] pv[i as int][l] < st.sizes[fi[l]],
                decreases dims.len() - j,
            {
                assert(points@[i as int].len() == dims.len());
                assert(pv[i as int] == points@[i as int]@);
                if points[i][j] >= self.dimension_sizes[fixed[j]] {
                    proof {
                        let (ii, jj) = (i as int, j as int);
                        assert(st.out_of_range_at(dv, pv, ii, jj));
                        assert forall|i2: int, m2: int| 0 <= i2 < ii implies !#[trigger] st.out_of_range_at(dv, pv, i2, m2) by {
                            if 0 <= m2 < dims.len() {
                                assert(pv[i2][m2] < st.sizes[fi[m2]]);
                            }
                        }
                        assert forall|m2: int| 0 <= m2 < jj implies !#[trigger] st.out_of_range_at(dv, pv, ii, m2) by {
                            assert(pv[ii][m2] < st.sizes[fi[m2]]);
                        }
                        assert(st.is_first_out_of_range(dv, pv, ii, jj));
                        let (ci, cj) = choose|ci: int, cj: int| st.is_first_out_of_range(dv, pv, ci, cj);
                        assert(st.is_first_out_of_range(dv, pv, ci, cj));
                        if ci < ii {
                            assert(!st.out_of_range_at(dv, pv, ci, cj));
                        } else if ci > ii {
                            assert(!st.out_of_range_at(dv, pv, ii, jj));
                        } else if cj < jj {
                            assert(!st.out_of_range_at(dv, pv, ii, cj));
                        } else if cj > jj {
                            assert(!st.out_of_range_at(dv, pv, ci, jj));
                        }
                        assert(st.point_out_of_range(dv, pv));
                        assert(dv[jj] == dims@[jj]@);
                    }
                    return Err(ExtractError::IndexOutOfRange(dims[j].clone()));
                }
                j += 1;
            }
            i += 1;
        }
        assert(!st.point_out_of_range(dv, pv)) by {
            if st.point_out_of_range(dv, pv) {
                let (ci, cj) = choose|ci: int, cj: int| st.out_of_range_at(dv, pv, ci, cj);
                assert(pv[ci][cj] < st.sizes[fi[cj]]);
            }
        }
        let distinct = distinct_rows(points);
        let ghost dp = rows_view(distinct@);
        assert forall|q: int| 0 <= q < dp.len() implies (#[trigger] dp[q]).len() == dims.len() && forall|l: int|
            0 <= l < dims.len() ==> dp[q][l] < st.sizes[fi[l]] by {
            assert(dp.contains(dp[q]));
            lemma_distinct_first_subset(pv, dp[q]);
            let w = choose|w: int| 0 <= w < pv.len() && pv[w] == dp[q];
            assert(pv[w] == points@[w]@);
            assert(points@[w].len() == dims.len());
            assert forall|l: int| 0 <= l < dims.len() implies dp[q][l] < st.sizes[fi[l]] by {
                assert(pv[w][l] < st.sizes[fi[l]]);
            }
        }
        let mut choices: Vec<Vec<usize>> = Vec::new();
        let mut k: usize = 0;
        while k < n
            invariant
                st == self@,
                st.wf(),
                n == st.rank(),
                fi == as_ints(fixed@),
                k <= n,
                rows_view(choices@) == base_choices(st.candidates, fi).subrange(0, k as int),
            decreases n - k,
        {
            if contains_index(&fixed, k) {
                assert(fi.contains(k as int)) by {
                    let w = choose|w: int| 0 <= w < fixed.len() && fixed@[w] == k;
                    assert(fi[w] == k as int);
                }
                let mut z: Vec<usize> = Vec::new();
                z.push(0);
                proof {
                    lemma_rows_view_push(choices@, z);
                }
                assert(z@ =~= seq![0usize]);
                choices.push(z);
            } else {
                assert(!fi.contains(k as int)) by {
                    if fi.contains(k as int) {
                        let w = choose|w: int| 0 <= w < fi.len() && fi[w] == k as int;
                        assert(fixed@[w] == k);
                    }
                }
                let c = copy_row(&self.dimension_indices[k]);
                proof {
                    lemma_rows_view_push(choices@, c);
                }
                assert(c@ == st.candidates[k as int]);
                choices.push(c);
            }
            k += 1;
            assert(rows_view(choices@) =~= base_choices(st.candidates, fi).subrange(0, k as int));
        }
        assert(base_choices(st.candidates, fi).subrange(0, n as int) =~= base_choices(st.candidates, fi));
        let bases = cartesian_product(&choices);
        let ghost bv = rows_view(bases@);
        let ghost bc = base_choices(st.candidates, fi);
        let mut out: Vec<Vec<usize>> = Vec::new();
        let mut b: usize = 0;
        while b < bases.len()
            invariant
                st == self@,
                st.wf(),
                n == st.rank(),
                fi == as_ints(fixed@),
                fixed.len() == dims.len(),
                forall|q: int| 0 <= q < fixed.len() ==> #[trigger] fixed@[q] < n,
                dp == rows_view(distinct@),
                forall|q: int| 0 <= q < dp.len() ==> (#[trigger] dp[q]).len() == dims.len() && forall|l: int|
                    0 <= l < dims.len() ==> dp[q][l] < st.sizes[fi[l]],
                bc == base_choices(st.candidates, fi),
                bv == rows_view(bases@),
                bv == product(bc),
                b <= bases.len(),
                rows_view(out@) == expand(bv.subrange(0, b as int), fi, dp),
                forall|q: int| 0 <= q < out.len() ==> tuple_in_bounds(st.sizes, #[trigger] rows_view(out@)[q]),
            decreases bases.len() - b,
        {
            let ghost base = bv[b as int];
            proof {
                assert(bv.contains(base));
                crate::combinations::lemma_product_contains(bc, base);
                assert forall|k: int| 0 <= k < n && !fi.contains(k) implies #[trigger] base[k] < st.sizes[k] by {
                    assert(bc[k].contains(base[k]));
                    let w = choose|w: int| 0 <= w < st.candidates[k].len() && st.candidates[k][w] == base[k];
                }
            }
            let ghost before = rows_view(out@);
            let mut p: usize = 0;
            while p < distinct.len()
                invariant
                    st.wf(),
                    n == st.rank(),
                    fi == as_ints(fixed@),
                    fixed.len() == dims.len(),
                    forall|q: int| 0 <= q < fixed.len() ==> #[trigger] fixed@[q] < n,
                    dp == rows_view(distinct@),
                    forall|q: int| 0 <= q < dp.len() ==> (#[trigger] dp[q]).len() == dims.len() && forall|l: int|
                        0 <= l < dims.len() ==> dp[q][l] < st.sizes[fi[l]],
                    bv == rows_view(bases@),
                    b < bases.len(),
                    base == bv[b as int],
                    base.len() == n,
                    forall|k: int| 0 <= k < n && !fi.contains(k) ==> #[trigger] base[k] < st.sizes[k],
                    p <= distinct.len(),
                    rows_view(out@) == before + dp.subrange(0, p as int).map_values(
                        |pt: Seq<usize>| place(base, fi, pt),
                    ),
                    forall|q: int| 0 <= q < out.len() ==> tuple_in_bounds(st.sizes, #[trigger] rows_view(out@)[q]),
                decreases distinct.len() - p,
            {
                assert(dp[p as int] == distinct@[p as int]@);
                assert(bv[b as int] == bases@[b as int]@);
                let row = place_exec(&bases[b], &fixed, &distinct[p]);
                proof {
                    lemma_place(base, fi, dp[p as int], st.sizes);
                    assert forall|k: int| 0 <= k < n implies #[trigger] row@[k] < st.sizes[k] by {
                        if fi.contains(k) {
                        } else {
                        }
                    }
                }
                let ghost prev = rows_view(out@);
                proof {
                    lemma_rows_view_push(out@, row);
                }
                out.push(row);
                p += 1;
                assert(rows_view(out@) =~= prev.push(place(base, fi, dp[p - 1])));
                assert(dp.subrange(0, p as int).map_values(|pt: Seq<usize>| place(base, fi, pt))
                    =~= dp.subrange(0, p - 1).map_values(|pt: Seq<usize>| place(base, fi, pt)).push(
                    place(base, fi, dp[p - 1]),
                ));
            }
            assert(dp.subrange(0, distinct.len() as int) == dp);
            let ghost bs = bv.subrange(0, b + 1);
            assert(bs.drop_last() == bv.subrange(0, b as int));
            assert(bs.last() == base);
            b += 1;
        }
        assert(bv.subrange(0, bases.len() as int) == bv);
        self.explicit_combinations = Some(out);
        assert(self@ == st.with_explicit(dv, pv));
        proof {
            assert forall|j: int| 0 <= j < pv.len() implies (#[trigger] pv[j]).len() == dv.len() by {
                assert(pv[j] == points@[j]@);
                assert(points@[j].len() == dims.len());
                assert(dv.len() == dims.len());
            }
            crate::laws::lemma_explicit_enumeration_distinct(st, dv, pv);
        }
        Ok(())
    }

    /// The candidate indices of the dimension named `dim_name`, ascending.
    pub fn get_dimension_indices(&self, dim_name: &str) -> (r: Option<&Vec<usize>>)
        requires
            self@.wf(),
        ensures
            match position_of(self@.names, dim_name@) {
                Some(k) => r matches Some(v) && v@ == self@.candidates[k],
                None => r is None,
            },
    {
        let name = dim_name.to_owned();
        match find_position(&self.dimension_order, &name) {
            Some(k) => {
                proof {
                    let c = choose|c: int| crate::names::is_first_position(self@.names, name@, c);
                }
                Some(&self.dimension_indices[k])
            },
            None => None,
        }
    }

    /// The variable's dimension names, in order.
    pub fn get_dimension_order(&self) -> (r: &Vec<String>)
        ensures
            names_view(r@) == self@.names,
    {
        &self.dimension_order
    }

    /// Every surviving coordinate tuple: the explicit override verbatim where
    /// there is one, else the cartesian product of the candidate lists in
    /// lexicographic order of dimensions.
    pub fn get_all_coordinate_combinations(&self) -> (r: Vec<Vec<usize>>)
        requires
            self@.wf(),
        ensures
            rows_view(r@) == self@.enumeration(),
            rows_view(r@).no_duplicates(),
    {
        proof {
            crate::laws::lemma_enumeration_never_repeats(self@);
        }
        match &self.explicit_combinations {
            Some(explicit) => copy_rows(explicit),
            None => cartesian_product(&self.dimension_indices),
        }
    }
}


/// Every tuple of a well-formed state's enumeration indexes the dimensions.
pub proof fn lemma_enumeration_in_bounds(st: IndexState)
    requires
        st.wf(),
    ensures
        forall|i: int| 0 <= i < st.enumeration().len() ==> tuple_in_bounds(st.sizes, #[trigger] st.enumeration()[i]),
{
    if st.explicit is None {
        assert forall|i: int| 0 <= i < st.enumeration().len() implies tuple_in_bounds(st.sizes, #[trigger] st.enumeration()[i]) by {
            let t = st.enumeration()[i];
            assert(product(st.candidates).contains(t));
            crate::combinations::lemma_product_contains(st.candidates, t);
            assert forall|k: int| 0 <= k < t.len() implies t[k] < st.sizes[k] by {
                assert(st.candidates[k].contains(t[k]));
                let m = choose|m: int| 0 <= m < st.candidates[k].len() && st.candidates[k][m] == t[k];
            }
        }
    }
}

/// The value shown in a dimension's column for one row.
#[derive(Debug, Clone, Copy)]
pub enum DisplayCoordinate<V> {
    /// The dimension's coordinate value at the row's index.
    Coordinate(V),
    /// The row's raw index, where the dimension has no coordinate vector.
    Index(usize),
}

/// The coordinate values, where there are some.
pub open spec fn opt_view<V>(c: Option<Vec<V>>) -> Option<Seq<V>> {
    match c {
        Some(v) => Some(v@),
        None => None,
    }
}

/// The display coordinate of index `i` given the dimension's coordinate values, if any.
pub open spec fn display_of<V>(coords: Option<Seq<V>>, i: usize) -> DisplayCoordinate<V> {
    match coords {
        Some(c) => DisplayCoordinate::Coordinate(c[i as int]),
        None => DisplayCoordinate::Index(i),
    }
}

/// The most dimensions a variable may have.
pub const MAX_RANK: usize = 4;

/// The rows to materialise: the surviving tuples, and for each dimension a
/// column with the display coordinate of each row. Each tuple is where the
/// variable's value for that row is read.
pub struct RowPlan<V> {
    pub dimension_names: Vec<String>,
    pub combinations: Vec<Vec<usize>>,
    pub coordinate_columns: Vec<Vec<DisplayCoordinate<V>>>,
}

impl<V> RowPlan<V> {
    /// The plan holds the enumeration of `st`, and column `k` holds the
    /// display coordinate of each row's `k`-th index.
    pub open spec fn describes(&self, st: IndexState, coordinates: Seq<Option<Vec<V>>>) -> bool {
        &&& names_view(self.dimension_names@) == st.names
        &&& rows_view(self.combinations@) == st.enumeration()
        &&& self.coordinate_columns@.len() == st.rank()
        &&& forall|k: int| 0 <= k < st.rank() ==> (#[trigger] self.coordinate_columns@[k])@.len() == st.enumeration().len()
        &&& forall|k: int, i: int| 0 <= k < st.rank() && 0 <= i < st.enumeration().len() ==>
            #[trigger] self.coordinate_columns@[k]@[i] == display_of(opt_view(coordinates[k]), st.enumeration()[i][k])
    }
}

/// The variable's rank is one that values can be read at.
pub open spec fn supported_rank(rank: nat) -> bool {
    1 <= rank <= MAX_RANK
}

/// Each dimension's coordinate values, where given, have one value per index.
pub open spec fn coordinates_fit<V>(sizes: Seq<usize>, coordinates: Seq<Option<Vec<V>>>) -> bool {
    &&& coordinates.len() == sizes.len()
    &&& forall|k: int| 0 <= k < sizes.len() ==> (#[trigger] coordinates[k] matches Some(c) ==> c@.len() == sizes[k])
}

/// Turns the manager's surviving tuples into rows: one display coordinate
/// per dimension for each tuple. Fails on a rank outside `1..=4`.
pub fn extract_data_with_dimension_manager<V: Copy>(
    dim_manager: &DimensionIndexManager,
    coordinates: &Vec<Option<Vec<V>>>,
) -> (r: Result<RowPlan<V>, ExtractError>)
    requires
        dim_manager@.wf(),
        coordinates_fit(dim_manager@.sizes, coordinates@),
    ensures
        !supported_rank(dim_manager@.rank()) ==> (r matches Err(ExtractError::UnsupportedRank(n)) && n == dim_manager@.rank()),
        supported_rank(dim_manager@.rank()) ==> (r matches Ok(plan) && plan.describes(dim_manager@, coordinates@)),
{
    let ghost st = dim_manager@;
    let order = dim_manager.get_dimension_order();
    let rank = order.len();
    if rank < 1 || rank > MAX_RANK {
        return Err(ExtractError::UnsupportedRank(rank));
    }
    let mut names: Vec<String> = Vec::new();
    let mut k: usize = 0;
    while k < rank
        invariant
            k <= rank,
            rank == order.len(),
            names_view(names@) == names_view(order@).subrange(0, k as int),
        decreases rank - k,
    {
        let name = order[k].clone();
        proof {
            lemma_names_view_push(names@, name);
        }
        names.push(name);
        k += 1;
        assert(names_view(names@) =~= names_view(order@).subrange(0, k as int));
    }
    assert(names_view(order@).subrange(0, rank as int) == names_view(order@));
    let combinations = dim_manager.get_all_coordinate_combinations();
    let ghost e = st.enumeration();
    proof {
        lemma_enumeration_in_bounds(st);
    }
    let mut columns: Vec<Vec<DisplayCoordinate<V>>> = Vec::new();
    let mut k: usize = 0;
    while k < rank
        invariant
            st == dim_manager@,
            st.wf(),
            rank == st.rank(),
            coordinates_fit(st.sizes, coordinates@),
            rows_view(combinations@) == e,
            e == st.enumeration(),
            forall|i: int| 0 <= i < e.len() ==> tuple_in_bounds(st.sizes, #[trigger] e[i]),
            k <= rank,
            columns.len() == k,
            forall|j: int| 0 <= j < k ==> (#[trigger] columns@[j])@.len() == e.len(),
            forall|j: int, i: int| 0 <= j < k && 0 <= i < e.len() ==>
                #[trigger] columns@[j]@[i] == display_of(opt_view(coordinates@[j]), e[i][j]),
        decreases rank - k,
    {
        let mut column: Vec<DisplayCoordinate<V>> = Vec::new();
        let mut i: usize = 0;
        while i < combinations.len()
            invariant
                st.wf(),
                rank == st.rank(),
                coordinates_fit(st.sizes, coordinates@),
                rows_view(combinations@) == e,
                forall|q: int| 0 <= q < e.len() ==> tuple_in_bounds(st.sizes, #[trigger] e[q]),
                k < rank,
                i <= combinations.len(),
                column@.len() == i,
                forall|q: int| 0 <= q < i ==> #[trigger] column@[q] == display_of(opt_view(coordinates@[k as int]), e[q][k as int]),
            decreases combinations.len() - i,
        {
            assert(e[i as int] == combinations@[i as int]@);
            assert(tuple_in_bounds(st.sizes, e[i as int]));
            let idx = combinations[i][k];
            let shown = match &coordinates[k] {
                Some(c) => DisplayCoordinate::Coordinate(c[idx]),
                None => DisplayCoordinate::Index(idx),
            };
            column.push(shown);
            i += 1;
        }
        columns.push(column);
        k += 1;
    }
    Ok(RowPlan { dimension_names: names, combinations, coordinate_columns: columns })
}

/// Evaluates each filter against `coords`, folds its result into a manager
/// for the variable's `dimensions`, and turns the surviving tuples into rows.
/// A rank outside `1..=4` fails before any filter is evaluated; a filter that
/// fails stops the extraction, and no rows are produced.
pub fn extract_data_to_dataframe<V: Copy>(
    dimensions: &Vec<(String, usize)>,
    coords: &CoordinateTable,
    filters: &Vec<FilterConfig>,
    coordinates: &Vec<Option<Vec<V>>>,
) -> (r: Result<RowPlan<V>, ExtractError>)
    requires
        coordinates_fit(initial_state(dimensions@).sizes, coordinates@),
    ensures
        !supported_rank(dimensions.len() as nat) ==> (r matches Err(ExtractError::UnsupportedRank(n))
            && n == dimensions.len()),
        supported_rank(dimensions.len() as nat) ==> match initial_state(dimensions@).fold_filters(
            *coords,
            filters@,
        ) {
            Ok(st) => r matches Ok(plan) && plan.describes(st, coordinates@),
            Err(e) => r matches Err(x) && x.view() == e,
        },
{
    if dimensions.len() < 1 || dimensions.len() > MAX_RANK {
        return Err(ExtractError::UnsupportedRank(dimensions.len()));
    }
    let ghost init = initial_state(dimensions@);
    let mut dim_manager = DimensionIndexManager::new(dimensions);
    let mut i: usize = 0;
    while i < filters.len()
        invariant
            i <= filters.len(),
            dim_manager@.wf(),
            init == initial_state(dimensions@),
            1 <= dimensions.len() <= MAX_RANK,
            init.fold_filters(*coords, filters@.subrange(0, i as int)) == Ok::<IndexState, ErrorView>(dim_manager@),
            dim_manager@.sizes == init.sizes,
            dim_manager@.names == init.names,
        decreases filters.len() - i,
    {
        let ghost next = filters@.subrange(0, i + 1);
        assert(next.drop_last() =~= filters@.subrange(0, i as int));
        assert(next.last() == filters@[i as int]);
        let result = match filters[i].apply(coords) {
            Ok(result) => result,
            Err(e) => {
                assert(init.fold_filters(*coords, next) == Err::<IndexState, ErrorView>(e.view()));
                proof {
                    lemma_fold_err_stays(init, *coords, filters@, i as int + 1);
                }
                return Err(e);
            },
        };
        match dim_manager.apply_filter_result(&result) {
            Ok(()) => {},
            Err(e) => {
                assert(init.fold_filters(*coords, next) == Err::<IndexState, ErrorView>(e.view()));
                proof {
                    lemma_fold_err_stays(init, *coords, filters@, i as int + 1);
                }
                return Err(e);
            },
        }
        i += 1;
    }
    assert(filters@.subrange(0, filters.len() as int) == filters@);
    extract_data_with_dimension_manager(&dim_manager, coordinates)
}

/// Once folding a prefix of the filters fails, folding every longer prefix
/// fails with the same error.
proof fn lemma_fold_err_stays(st: IndexState, coords: CoordinateTable, filters: Seq<FilterConfig>, i: int)
    requires
        0 <= i <= filters.len(),
        st.fold_filters(coords, filters.subrange(0, i)) is Err,
    ensures
        st.fold_filters(coords, filters) == st.fold_filters(coords, filters.subrange(0, i)),
    decreases filters.len() - i,
{
    if i < filters.len() {
        let next = filters.subrange(0, i + 1);
        assert(next.drop_last() =~= filters.subrange(0, i));
        lemma_fold_err_stays(st, coords, filters, i + 1);
    } else {
        assert(filters.subrange(0, i) =~= filters);
    }
}

} // verus!

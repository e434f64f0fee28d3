//! Properties that hold of every filter sequence and every state.
use vstd::prelude::*;
use crate::combinations::{
    lemma_product_contains, lemma_product_len, lemma_product_no_duplicates, product, product_size,
};
use crate::extract::{
    base_choices, distinct_first, expand, explicit_tuples, initial_state, keep_members, place,
    positions_of, IndexState,
};
use crate::names::position_of;
use crate::filters::{range_indices, CoordinateTable, FilterConfig, ResultModel};

verus! {

proof fn lemma_range_contains(keys: Seq<i64>, lo: i64, hi: i64, x: usize)
    requires
        keys.len() <= usize::MAX,
    ensures
        range_indices(keys, lo, hi).contains(x) <==> (x < keys.len() && lo <= keys[x as int] && keys[x as int] <= hi),
    decreases keys.len(),
{
    if keys.len() > 0 {
        let front = keys.drop_last();
        lemma_range_contains(front, lo, hi, x);
        let fr = range_indices(front, lo, hi);
        let n = (keys.len() - 1) as usize;
        assert(n as int == keys.len() - 1);
        if x < n {
            assert(front[x as int] == keys[x as int]);
        }
        if lo <= keys.last() && keys.last() <= hi {
            assert(range_indices(keys, lo, hi) == fr.push(n));
            if fr.push(n).contains(x) {
                let i = choose|i: int| 0 <= i < fr.len() + 1 && fr.push(n)[i] == x;
                if i < fr.len() {
                    assert(fr[i] == x);
                    assert(fr.contains(x));
                } else {
                    assert(x == n);
                }
            }
            if x == n {
                assert(fr.push(n)[fr.len() as int] == x);
            } else if fr.contains(x) {
                let i = choose|i: int| 0 <= i < fr.len() && fr[i] == x;
                assert(fr.push(n)[i] == x);
            }
        } else {
            assert(range_indices(keys, lo, hi) == fr);
        }
    }
}

proof fn lemma_keep_push(t: Seq<usize>, x: usize, allowed: Seq<usize>)
    ensures
        keep_members(t.push(x), allowed) == if allowed.contains(x) {
            keep_members(t, allowed).push(x)
        } else {
            keep_members(t, allowed)
        },
{
    assert(t.push(x).drop_last() =~= t);
}

/// Keeping the members of `a` and then those of `b` keeps the members of
/// any `c` that holds exactly what both hold.
proof fn lemma_keep_twice(s: Seq<usize>, a: Seq<usize>, b: Seq<usize>, c: Seq<usize>)
    requires
        forall|x: usize| (a.contains(x) && b.contains(x)) <==> #[trigger] c.contains(x),
    ensures
        keep_members(keep_members(s, a), b) == keep_members(s, c),
    decreases s.len(),
{
    if s.len() > 0 {
        let front = s.drop_last();
        lemma_keep_twice(front, a, b, c);
        if a.contains(s.last()) {
            lemma_keep_push(keep_members(front, a), s.last(), b);
        }
    }
}

proof fn lemma_keep_nothing(s: Seq<usize>, a: Seq<usize>)
    requires
        a.len() == 0,
    ensures
        keep_members(s, a).len() == 0,
    decreases s.len(),
{
    if s.len() > 0 {
        lemma_keep_nothing(s.drop_last(), a);
    }
}

proof fn lemma_product_size_zero(choices: Seq<Seq<usize>>, k: int)
    requires
        0 <= k < choices.len(),
        choices[k].len() == 0,
    ensures
        product_size(choices) == 0,
    decreases k,
{
    let c0 = choices[0].len();
    if k > 0 {
        assert(choices.drop_first()[k - 1] == choices[k]);
        lemma_product_size_zero(choices.drop_first(), k - 1);
        assert(c0 * 0 == 0) by (nonlinear_arith);
    } else {
        let rest = product_size(choices.drop_first());
        assert(0 * rest == 0) by (nonlinear_arith);
    }
}

/// A dimension that no single-dimension result names keeps every index as a
/// candidate, whatever other results (pairs and triplets included) are
/// folded in.
pub proof fn lemma_unfiltered_dimension_keeps_all(
    dimensions: Seq<(String, usize)>,
    results: Seq<ResultModel>,
    k: int,
)
    requires
        0 <= k < dimensions.len(),
        initial_state(dimensions).fold_results(results) is Ok,
        forall|i: int| 0 <= i < results.len() ==> match #[trigger] results[i] {
            ResultModel::Single { dimension, .. } => dimension != dimensions[k].0@,
            _ => true,
        },
    ensures
        (initial_state(dimensions).fold_results(results)->Ok_0).candidate_set(k) == Set::new(
            |i: usize| i < dimensions[k].1,
        ),
        (initial_state(dimensions).fold_results(results)->Ok_0).names == initial_state(dimensions).names,
        (initial_state(dimensions).fold_results(results)->Ok_0).candidates.len() == dimensions.len(),
    decreases results.len(),
{
    let init = initial_state(dimensions);
    if results.len() == 0 {
        let c = init.candidates[k];
        assert(c == crate::extract::all_indices(dimensions[k].1));
        assert(c.to_set() =~= Set::new(|i: usize| i < dimensions[k].1)) by {
            assert forall|i: usize| c.contains(i) <==> i < dimensions[k].1 by {
                if i < dimensions[k].1 {
                    assert(c[i as int] == i);
                }
            }
        }
    } else {
        let front = results.drop_last();
        let prev = init.fold_results(front);
        assert(prev is Ok);
        assert forall|i: int| 0 <= i < front.len() implies match #[trigger] front[i] {
            ResultModel::Single { dimension, .. } => dimension != dimensions[k].0@,
            _ => true,
        } by {
            assert(front[i] == results[i]);
        }
        lemma_unfiltered_dimension_keeps_all(dimensions, front, k);
        let st = prev->Ok_0;
        let m = results.last();
        assert(results[results.len() - 1] == m);
        match m {
            ResultModel::Single { dimension, indices } => {
                let j = position_of(st.names, dimension)->Some_0;
                assert(st.names[k] == dimensions[k].0@);
                assert(j != k);
                assert(st.with_single(j, indices).candidates[k] == st.candidates[k]);
            },
            _ => {},
        }
    }
}

/// Folding filters keeps the dimensions' names and sizes.
pub proof fn lemma_fold_keeps_names(dimensions: Seq<(String, usize)>, coords: CoordinateTable, filters: Seq<FilterConfig>)
    requires
        initial_state(dimensions).fold_filters(coords, filters) is Ok,
    ensures
        (initial_state(dimensions).fold_filters(coords, filters)->Ok_0).names == initial_state(dimensions).names,
        (initial_state(dimensions).fold_filters(coords, filters)->Ok_0).sizes == initial_state(dimensions).sizes,
        (initial_state(dimensions).fold_filters(coords, filters)->Ok_0).candidates.len() == dimensions.len(),
    decreases filters.len(),
{
    if filters.len() > 0 {
        lemma_fold_keeps_names(dimensions, coords, filters.drop_last());
    }
}

/// The filters are range and list filters only.
pub open spec fn single_dimension_filters(filters: Seq<FilterConfig>) -> bool {
    forall|i: int| 0 <= i < filters.len() ==> (#[trigger] filters[i] is Range || filters[i] is List)
}

proof fn lemma_singles_leave_no_override(dimensions: Seq<(String, usize)>, coords: CoordinateTable, filters: Seq<FilterConfig>)
    requires
        single_dimension_filters(filters),
        initial_state(dimensions).fold_filters(coords, filters) is Ok,
    ensures
        (initial_state(dimensions).fold_filters(coords, filters)->Ok_0).explicit is None,
    decreases filters.len(),
{
    if filters.len() > 0 {
        let front = filters.drop_last();
        assert forall|i: int| 0 <= i < front.len() implies (#[trigger] front[i] is Range || front[i] is List) by {
            assert(front[i] == filters[i]);
        }
        lemma_singles_leave_no_override(dimensions, coords, front);
        assert(filters[filters.len() - 1] == filters.last());
    }
}

proof fn lemma_range_empty(keys: Seq<i64>, lo: i64, hi: i64)
    requires
        (forall|i: int| 0 <= i < keys.len() ==> #[trigger] keys[i] < lo) || (forall|i: int|
            0 <= i < keys.len() ==> #[trigger] keys[i] > hi),
    ensures
        range_indices(keys, lo, hi).len() == 0,
    decreases keys.len(),
{
    if keys.len() > 0 {
        let front = keys.drop_last();
        assert(keys[keys.len() - 1] == keys.last());
        assert forall|i: int| 0 <= i < front.len() implies #[trigger] front[i] == keys[i] by {}
        lemma_range_empty(front, lo, hi);
    }
}

/// The `j`-th filter is a range filter whose bounds lie wholly above or
/// wholly below its dimension's coordinates.
pub open spec fn range_misses_coordinates(coords: CoordinateTable, filters: Seq<FilterConfig>, j: int) -> bool {
    &&& 0 <= j < filters.len()
    &&& filters[j] matches FilterConfig::Range(f) && coords.lookup(f.dimension_name@) matches Some(keys)
        && ((forall|i: int| 0 <= i < keys.len() ==> #[trigger] keys[i] < f.min_value) || (forall|i: int|
        0 <= i < keys.len() ==> #[trigger] keys[i] > f.max_value))
}

proof fn lemma_empty_candidates_stay(dimensions: Seq<(String, usize)>, coords: CoordinateTable, filters: Seq<FilterConfig>, j: int)
    requires
        single_dimension_filters(filters),
        range_misses_coordinates(coords, filters, j),
        initial_state(dimensions).fold_filters(coords, filters) is Ok,
    ensures
        exists|k: int| 0 <= k < dimensions.len() && (#[trigger] (initial_state(dimensions).fold_filters(coords, filters)->Ok_0).candidates[k]).len() == 0,
    decreases filters.len(),
{
    let init = initial_state(dimensions);
    let front = filters.drop_last();
    let last = filters.last();
    assert(filters[filters.len() - 1] == last);
    assert forall|i: int| 0 <= i < front.len() implies (#[trigger] front[i] is Range || front[i] is List) by {
        assert(front[i] == filters[i]);
    }
    lemma_fold_keeps_names(dimensions, coords, front);
    let st = init.fold_filters(coords, front)->Ok_0;
    let m = last.spec_result(coords)->Ok_0;
    if j == filters.len() - 1 {
        match last {
            FilterConfig::Range(f) => {
                let keys = coords.lookup(f.dimension_name@)->Some_0;
                lemma_range_empty(keys, f.min_value, f.max_value);
                let k = position_of(st.names, f.dimension_name@)->Some_0;
                let c = st.candidates[k];
                lemma_keep_nothing(c, range_indices(keys, f.min_value, f.max_value));
                assert(st.with_single(k, range_indices(keys, f.min_value, f.max_value)).candidates[k].len() == 0);
            },
            _ => {},
        }
    } else {
        assert(front[j] == filters[j]);
        lemma_empty_candidates_stay(dimensions, coords, front, j);
        let k = choose|k: int| 0 <= k < dimensions.len() && (#[trigger] st.candidates[k]).len() == 0;
        match m {
            ResultModel::Single { dimension, indices } => {
                let k2 = position_of(st.names, dimension)->Some_0;
                let after = st.with_single(k2, indices);
                if k2 == k {
                    assert(st.candidates[k] =~= Seq::<usize>::empty());
                    assert(after.candidates[k].len() == 0);
                } else {
                    assert(after.candidates[k] == st.candidates[k]);
                }
            },
            _ => {},
        }
    }
}

/// Range and list filters, one of which lies wholly above or below its
/// dimension's coordinates, leave no tuple to enumerate: the extraction has
/// no rows.
pub proof fn lemma_missing_range_leaves_no_rows(
    dimensions: Seq<(String, usize)>,
    coords: CoordinateTable,
    filters: Seq<FilterConfig>,
    j: int,
)
    requires
        single_dimension_filters(filters),
        range_misses_coordinates(coords, filters, j),
        initial_state(dimensions).fold_filters(coords, filters) is Ok,
    ensures
        (initial_state(dimensions).fold_filters(coords, filters)->Ok_0).enumeration().len() == 0,
{
    let st = initial_state(dimensions).fold_filters(coords, filters)->Ok_0;
    lemma_singles_leave_no_override(dimensions, coords, filters);
    lemma_empty_candidates_stay(dimensions, coords, filters, j);
    lemma_fold_keeps_names(dimensions, coords, filters);
    let k = choose|k: int| 0 <= k < dimensions.len() && (#[trigger] st.candidates[k]).len() == 0;
    lemma_product_size_zero(st.candidates, k);
    lemma_product_len(st.candidates);
}

/// In every well-formed state, and so in every state that folding can
/// reach, the enumeration holds no tuple twice.
pub proof fn lemma_enumeration_never_repeats(st: IndexState)
    requires
        st.wf(),
    ensures
        st.enumeration().no_duplicates(),
{
    if st.explicit is None {
        lemma_enumeration_is_product(st);
    }
}

/// A range that lies wholly above or wholly below the coordinates keeps no
/// index, and folding it in leaves no tuple to enumerate (where no explicit
/// override stands).
pub proof fn lemma_range_outside_coordinates_is_empty(st: IndexState, k: int, keys: Seq<i64>, lo: i64, hi: i64)
    requires
        st.wf(),
        st.explicit is None,
        0 <= k < st.rank(),
        keys.len() <= usize::MAX,
        (forall|i: int| 0 <= i < keys.len() ==> #[trigger] keys[i] < lo) || (forall|i: int|
            0 <= i < keys.len() ==> #[trigger] keys[i] > hi),
    ensures
        range_indices(keys, lo, hi).len() == 0,
        st.with_single(k, range_indices(keys, lo, hi)).enumeration().len() == 0,
{
    let r = range_indices(keys, lo, hi);
    if r.len() > 0 {
        lemma_range_contains(keys, lo, hi, r[0]);
        assert(r.contains(r[0]));
        assert(keys[r[0] as int] < lo || keys[r[0] as int] > hi);
    }
    lemma_keep_nothing(st.candidates[k], r);
    let after = st.with_single(k, r);
    lemma_product_size_zero(after.candidates, k);
    lemma_product_len(after.candidates);
}

/// Two range filters on one dimension compose as one range filter over the
/// intersection of their bounds.
pub proof fn lemma_range_filters_compose(
    st: IndexState,
    k: int,
    keys: Seq<i64>,
    lo1: i64,
    hi1: i64,
    lo2: i64,
    hi2: i64,
)
    requires
        st.wf(),
        0 <= k < st.rank(),
        keys.len() <= usize::MAX,
    ensures
        st.with_single(k, range_indices(keys, lo1, hi1)).with_single(k, range_indices(keys, lo2, hi2))
            == st.with_single(
            k,
            range_indices(keys, if lo1 >= lo2 { lo1 } else { lo2 }, if hi1 <= hi2 { hi1 } else { hi2 }),
        ),
{
    let lo = if lo1 >= lo2 { lo1 } else { lo2 };
    let hi = if hi1 <= hi2 { hi1 } else { hi2 };
    let a = range_indices(keys, lo1, hi1);
    let b = range_indices(keys, lo2, hi2);
    let c = range_indices(keys, lo, hi);
    assert forall|x: usize| (a.contains(x) && b.contains(x)) <==> #[trigger] c.contains(x) by {
        lemma_range_contains(keys, lo1, hi1, x);
        lemma_range_contains(keys, lo2, hi2, x);
        lemma_range_contains(keys, lo, hi, x);
    }
    lemma_keep_twice(st.candidates[k], a, b, c);
    let left = st.with_single(k, a).with_single(k, b);
    let right = st.with_single(k, c);
    assert(left.candidates =~= right.candidates);
}

/// Two single-dimension results on one dimension give the same state in
/// either order.
pub proof fn lemma_single_filters_commute(st: IndexState, k: int, a: Seq<usize>, b: Seq<usize>)
    requires
        st.wf(),
        0 <= k < st.rank(),
    ensures
        st.with_single(k, a).with_single(k, b) == st.with_single(k, b).with_single(k, a),
{
    let c = keep_members(a, b);
    crate::extract::lemma_keep_members(a, b);
    lemma_keep_twice(st.candidates[k], a, b, c);
    lemma_keep_twice(st.candidates[k], b, a, c);
    assert(st.with_single(k, a).with_single(k, b).candidates =~= st.with_single(k, b).with_single(
        k,
        a,
    ).candidates);
}

/// Without an explicit override the enumeration is the full cartesian
/// product of the candidate sets: a tuple is enumerated exactly when each
/// entry is a candidate of its dimension, no tuple comes twice, the tuples
/// come in increasing lexicographic order of the dimensions, and there are
/// as many tuples as the candidate set sizes multiply to.
pub proof fn lemma_enumeration_is_product(st: IndexState)
    requires
        st.wf(),
        st.explicit is None,
    ensures
        forall|t: Seq<usize>| #[trigger] st.enumeration().contains(t) <==> (t.len() == st.rank()
            && forall|k: int| 0 <= k < st.rank() ==> #[trigger] st.candidate_set(k).contains(t[k])),
        st.enumeration().no_duplicates(),
        crate::combinations::lex_sorted(st.enumeration()),
        st.enumeration().len() == product_size(st.candidates),
        forall|k: int| 0 <= k < st.rank() ==> #[trigger] st.candidate_set(k).len() == st.candidates[k].len(),
{
    lemma_product_len(st.candidates);
    assert forall|k: int| 0 <= k < st.candidates.len() implies (#[trigger] st.candidates[k]).no_duplicates() by {
        crate::extract::lemma_ascending_no_duplicates(st.candidates[k]);
    }
    lemma_product_no_duplicates(st.candidates);
    crate::combinations::lemma_product_sorted(st.candidates);
    assert forall|t: Seq<usize>| #[trigger] st.enumeration().contains(t) <==> (t.len() == st.rank()
        && forall|k: int| 0 <= k < st.rank() ==> #[trigger] st.candidate_set(k).contains(t[k])) by {
        lemma_product_contains(st.candidates, t);
        assert forall|k: int| 0 <= k < st.rank() && k < t.len() implies (#[trigger] st.candidate_set(k).contains(t[k])
            <==> st.candidates[k].contains(t[k])) by {}
        if st.enumeration().contains(t) {
            assert forall|k: int| 0 <= k < st.rank() implies #[trigger] st.candidate_set(k).contains(t[k]) by {
                assert(st.candidates[k].contains(t[k]));
            }
        }
        if t.len() == st.rank() && forall|k: int| 0 <= k < st.rank() ==> #[trigger] st.candidate_set(k).contains(t[k]) {
            assert forall|k: int| 0 <= k < st.candidates.len() implies #[trigger] st.candidates[k].contains(t[k]) by {
                assert(st.candidate_set(k).contains(t[k]));
            }
        }
    }
    assert forall|k: int| 0 <= k < st.rank() implies #[trigger] st.candidate_set(k).len() == st.candidates[k].len() by {
        crate::extract::lemma_ascending_no_duplicates(st.candidates[k]);
        st.candidates[k].unique_seq_to_set();
    }
}

proof fn lemma_distinct_first_no_duplicates(s: Seq<Seq<usize>>)
    ensures
        distinct_first(s).no_duplicates(),
    decreases s.len(),
{
    if s.len() > 0 {
        lemma_distinct_first_no_duplicates(s.drop_last());
        let front = distinct_first(s.drop_last());
        if !front.contains(s.last()) {
            let all = front.push(s.last());
            assert forall|i: int, j: int| 0 <= i < all.len() && 0 <= j < all.len() && i != j implies all[i] != all[j] by {
                if i < front.len() && j < front.len() {
                } else if i < front.len() {
                    assert(front.contains(front[i]));
                } else {
                    assert(front.contains(front[j]));
                }
            }
        }
    }
}

/// The fixed positions are distinct positions of a tuple of length `n`.
pub open spec fn distinct_positions(fixed: Seq<int>, n: nat) -> bool {
    &&& forall|m: int| 0 <= m < fixed.len() ==> 0 <= #[trigger] fixed[m] < n
    &&& forall|a: int, b: int| 0 <= a < fixed.len() && 0 <= b < fixed.len() && a != b ==> fixed[a] != fixed[b]
}

proof fn lemma_place_values(base: Seq<usize>, fixed: Seq<int>, values: Seq<usize>)
    requires
        distinct_positions(fixed, base.len()),
        values.len() == fixed.len(),
    ensures
        place(base, fixed, values).len() == base.len(),
        forall|m: int| 0 <= m < fixed.len() ==> #[trigger] place(base, fixed, values)[fixed[m]] == values[m],
        forall|k: int| 0 <= k < base.len() && !fixed.contains(k) ==> #[trigger] place(base, fixed, values)[k] == base[k],
    decreases fixed.len(),
{
    if fixed.len() > 0 {
        let f2 = fixed.drop_last();
        let v2 = values.drop_last();
        lemma_place_values(base, f2, v2);
        let last = fixed.len() - 1;
        assert(fixed[last] == fixed.last());
        assert forall|m: int| 0 <= m < fixed.len() implies #[trigger] place(base, fixed, values)[fixed[m]] == values[m] by {
            if m < last {
                assert(f2[m] == fixed[m]);
                assert(fixed[m] != fixed[last]);
            }
        }
        assert forall|k: int| 0 <= k < base.len() && !fixed.contains(k) implies #[trigger] place(base, fixed, values)[k] == base[k] by {
            assert(k != fixed[last]);
            if f2.contains(k) {
                let m = choose|m: int| 0 <= m < f2.len() && f2[m] == k;
                assert(fixed[m] == k);
            }
        }
    }
}

/// A base tuple: one entry per position, `0` at each fixed position.
pub open spec fn is_base(b: Seq<usize>, fixed: Seq<int>, n: nat) -> bool {
    b.len() == n && forall|m: int| 0 <= m < fixed.len() ==> b[#[trigger] fixed[m]] == 0
}

proof fn lemma_place_injective(b1: Seq<usize>, first_point: Seq<usize>, b2: Seq<usize>, second_point: Seq<usize>, fixed: Seq<int>, n: nat)
    requires
        distinct_positions(fixed, n),
        is_base(b1, fixed, n),
        is_base(b2, fixed, n),
        first_point.len() == fixed.len(),
        second_point.len() == fixed.len(),
        place(b1, fixed, first_point) == place(b2, fixed, second_point),
    ensures
        b1 == b2,
        first_point == second_point,
{
    lemma_place_values(b1, fixed, first_point);
    lemma_place_values(b2, fixed, second_point);
    let t = place(b1, fixed, first_point);
    assert forall|k: int| 0 <= k < n implies b1[k] == b2[k] by {
        if fixed.contains(k) {
            let m = choose|m: int| 0 <= m < fixed.len() && fixed[m] == k;
            assert(b1[fixed[m]] == 0 && b2[fixed[m]] == 0);
        } else {
            assert(t[k] == b1[k]);
        }
    }
    assert(b1 =~= b2);
    assert forall|m: int| 0 <= m < fixed.len() implies first_point[m] == second_point[m] by {
        assert(t[fixed[m]] == first_point[m]);
    }
    assert(first_point =~= second_point);
}

proof fn lemma_expand_contains(bases: Seq<Seq<usize>>, fixed: Seq<int>, points: Seq<Seq<usize>>, x: Seq<usize>)
    requires
        expand(bases, fixed, points).contains(x),
    ensures
        exists|i: int, j: int| 0 <= i < bases.len() && 0 <= j < points.len() && x == place(bases[i], fixed, points[j]),
    decreases bases.len(),
{
    let front = expand(bases.drop_last(), fixed, points);
    let block = points.map_values(|p: Seq<usize>| place(bases.last(), fixed, p));
    let all = expand(bases, fixed, points);
    assert(all == front + block);
    let w = choose|w: int| 0 <= w < all.len() && all[w] == x;
    if w < front.len() {
        assert(front[w] == x);
        lemma_expand_contains(bases.drop_last(), fixed, points, x);
        let (i, j) = choose|i: int, j: int| 0 <= i < bases.drop_last().len() && 0 <= j < points.len() && x == place(bases.drop_last()[i], fixed, points[j]);
        assert(bases[i] == bases.drop_last()[i]);
    } else {
        let j = w - front.len();
        assert(block[j] == x);
        assert(x == place(bases[bases.len() - 1], fixed, points[j]));
    }
}

proof fn lemma_expand_no_duplicates(bases: Seq<Seq<usize>>, fixed: Seq<int>, points: Seq<Seq<usize>>, n: nat)
    requires
        distinct_positions(fixed, n),
        bases.no_duplicates(),
        points.no_duplicates(),
        forall|i: int| 0 <= i < bases.len() ==> is_base(#[trigger] bases[i], fixed, n),
        forall|j: int| 0 <= j < points.len() ==> (#[trigger] points[j]).len() == fixed.len(),
    ensures
        expand(bases, fixed, points).no_duplicates(),
    decreases bases.len(),
{
    if bases.len() > 0 {
        let fb = bases.drop_last();
        let b = bases.last();
        assert(b == bases[bases.len() - 1]);
        let front = expand(fb, fixed, points);
        let block = points.map_values(|p: Seq<usize>| place(b, fixed, p));
        let all = expand(bases, fixed, points);
        assert(all == front + block);
        assert forall|i: int| 0 <= i < fb.len() implies is_base(#[trigger] fb[i], fixed, n) by {
            assert(fb[i] == bases[i]);
        }
        assert(fb.no_duplicates()) by {
            assert forall|i: int, j: int| 0 <= i < fb.len() && 0 <= j < fb.len() && i != j implies fb[i] != fb[j] by {
                assert(fb[i] == bases[i] && fb[j] == bases[j]);
            }
        }
        lemma_expand_no_duplicates(fb, fixed, points, n);
        assert forall|i: int, j: int| 0 <= i < all.len() && 0 <= j < all.len() && i != j implies all[i] != all[j] by {
            if i < front.len() && j < front.len() {
            } else if i >= front.len() && j >= front.len() {
                let pi = points[i - front.len()];
                let pj = points[j - front.len()];
                assert(all[i] == place(b, fixed, pi));
                assert(all[j] == place(b, fixed, pj));
                if all[i] == all[j] {
                    lemma_place_injective(b, pi, b, pj, fixed, n);
                }
            } else {
                let (a, c) = if i < front.len() { (i, j) } else { (j, i) };
                let pc = points[c - front.len()];
                assert(all[c] == place(b, fixed, pc));
                if all[a] == all[c] {
                    assert(front.contains(all[a]));
                    lemma_expand_contains(fb, fixed, points, all[a]);
                    let (u, v) = choose|u: int, v: int| 0 <= u < fb.len() && 0 <= v < points.len() && all[a] == place(fb[u], fixed, points[v]);
                    lemma_place_injective(fb[u], points[v], b, pc, fixed, n);
                    assert(bases[u] == bases[bases.len() - 1]);
                }
            }
        }
    }
}

/// The tuples of a multi-dimension filter never repeat, even where the
/// filter's own points do, provided it fixes distinct dimensions.
pub proof fn lemma_explicit_tuples_distinct(cands: Seq<Seq<usize>>, fixed: Seq<int>, points: Seq<Seq<usize>>)
    requires
        distinct_positions(fixed, cands.len()),
        forall|k: int| 0 <= k < cands.len() ==> (#[trigger] cands[k]).no_duplicates(),
        forall|j: int| 0 <= j < points.len() ==> (#[trigger] points[j]).len() == fixed.len(),
    ensures
        explicit_tuples(cands, fixed, points).no_duplicates(),
{
    let n = cands.len();
    let bc = base_choices(cands, fixed);
    assert forall|k: int| 0 <= k < bc.len() implies (#[trigger] bc[k]).no_duplicates() by {
        if fixed.contains(k) {
            assert(bc[k] == seq![0usize]);
        } else {
            assert(bc[k] == cands[k]);
        }
    }
    crate::combinations::lemma_product_no_duplicates(bc);
    let bases = product(bc);
    assert forall|i: int| 0 <= i < bases.len() implies is_base(#[trigger] bases[i], fixed, n) by {
        assert(bases.contains(bases[i]));
        lemma_product_contains(bc, bases[i]);
        assert forall|m: int| 0 <= m < fixed.len() implies bases[i][#[trigger] fixed[m]] == 0 by {
            let k = fixed[m];
            assert(fixed.contains(k));
            assert(bc[k] == seq![0usize]);
            assert(bc[k].contains(bases[i][k]));
        }
    }
    let dp = distinct_first(points);
    lemma_distinct_first_no_duplicates(points);
    assert forall|j: int| 0 <= j < dp.len() implies (#[trigger] dp[j]).len() == fixed.len() by {
        assert(dp.contains(dp[j]));
        crate::extract::lemma_distinct_first_subset(points, dp[j]);
    }
    lemma_expand_no_duplicates(bases, fixed, dp, n);
}

/// After a multi-dimension result over distinct dimensions is folded in,
/// the enumeration holds no tuple twice, whatever repeats the result held.
pub proof fn lemma_explicit_enumeration_distinct(st: IndexState, dims: Seq<Seq<char>>, points: Seq<Seq<usize>>)
    requires
        st.wf(),
        !st.missing_dimension(dims),
        forall|a: int, b: int| 0 <= a < dims.len() && 0 <= b < dims.len() && a != b ==> dims[a] != dims[b],
        forall|j: int| 0 <= j < points.len() ==> (#[trigger] points[j]).len() == dims.len(),
    ensures
        st.with_explicit(dims, points).enumeration().no_duplicates(),
{
    let fixed = positions_of(st.names, dims);
    assert forall|m: int| 0 <= m < dims.len() implies #[trigger] position_of(st.names, dims[m]) == Some(fixed[m]) && 0 <= fixed[m] < st.rank() && st.names[fixed[m]] == dims[m] by {
        assert(position_of(st.names, dims[m]) is Some);
        let c = choose|c: int| crate::names::is_first_position(st.names, dims[m], c);
    }
    assert forall|a: int, b: int| 0 <= a < fixed.len() && 0 <= b < fixed.len() && a != b implies fixed[a] != fixed[b] by {
        assert(st.names[fixed[a]] == dims[a]);
        assert(st.names[fixed[b]] == dims[b]);
    }
    assert forall|k: int| 0 <= k < st.candidates.len() implies (#[trigger] st.candidates[k]).no_duplicates() by {
        crate::extract::lemma_ascending_no_duplicates(st.candidates[k]);
    }
    lemma_explicit_tuples_distinct(st.candidates, fixed, points);
}

} // verus!

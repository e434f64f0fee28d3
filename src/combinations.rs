//! Cartesian products of index lists, with their specification.
use vstd::prelude::*;

verus! {

/// The index lists of a sequence of vectors.
pub open spec fn rows_view(rows: Seq<Vec<usize>>) -> Seq<Seq<usize>> {
    rows.map_values(|r: Vec<usize>| r@)
}

/// Viewing rows commutes with appending a row.
pub proof fn lemma_rows_view_push(rows: Seq<Vec<usize>>, v: Vec<usize>)
    ensures
        rows_view(rows.push(v)) == rows_view(rows).push(v@),
{
    assert(rows_view(rows.push(v)) =~= rows_view(rows).push(v@));
}

/// For each `x` of `heads` in turn, every tail of `tails` with `x` put in front.
pub open spec fn prepend_each(heads: Seq<usize>, tails: Seq<Seq<usize>>) -> Seq<Seq<usize>>
    decreases heads.len(),
{
    if heads.len() == 0 {
        Seq::empty()
    } else {
        prepend_each(heads.drop_last(), tails) + tails.map_values(
            |t: Seq<usize>| seq![heads.last()] + t,
        )
    }
}

/// Every tuple whose entry at position `k` is taken from `choices[k]`, in
/// lexicographic order: the first position varies slowest.
pub open spec fn product(choices: Seq<Seq<usize>>) -> Seq<Seq<usize>>
    decreases choices.len(),
{
    if choices.len() == 0 {
        seq![Seq::<usize>::empty()]
    } else {
        prepend_each(choices[0], product(choices.drop_first()))
    }
}

/// The number of tuples in the product: the product of the list lengths.
pub open spec fn product_size(choices: Seq<Seq<usize>>) -> nat
    decreases choices.len(),
{
    if choices.len() == 0 {
        1
    } else {
        choices[0].len() * product_size(choices.drop_first())
    }
}

/// `x` followed by the entries of `tail`.
fn prefixed(x: usize, tail: &Vec<usize>) -> (r: Vec<usize>)
    ensures
        r@ == seq![x] + tail@,
{
    let mut r: Vec<usize> = Vec::new();
    r.push(x);
    let mut k: usize = 0;
    while k < tail.len()
        invariant
            k <= tail.len(),
            r@ == seq![x] + tail@.subrange(0, k as int),
        decreases tail.len() - k,
    {
        r.push(tail[k]);
        k += 1;
        assert(tail@.subrange(0, k as int) == tail@.subrange(0, k - 1) + seq![tail@[k - 1]]);
    }
    assert(tail@.subrange(0, tail.len() as int) == tail@);
    r
}

/// Every tail of `tails` with each head of `heads` in front, heads outermost.
pub fn prepend_each_exec(heads: &Vec<usize>, tails: &Vec<Vec<usize>>) -> (r: Vec<Vec<usize>>)
    ensures
        rows_view(r@) == prepend_each(heads@, rows_view(tails@)),
{
    let ghost tv = rows_view(tails@);
    let mut r: Vec<Vec<usize>> = Vec::new();
    let mut i: usize = 0;
    while i < heads.len()
        invariant
            i <= heads.len(),
            tv == rows_view(tails@),
            rows_view(r@) == prepend_each(heads@.subrange(0, i as int), tv),
        decreases heads.len() - i,
    {
        let x = heads[i];
        let ghost before = rows_view(r@);
        let mut j: usize = 0;
        while j < tails.len()
            invariant
                i < heads.len(),
                x == heads@[i as int],
                j <= tails.len(),
                tv == rows_view(tails@),
                rows_view(r@) == before + tv.subrange(0, j as int).map_values(
                    |t: Seq<usize>| seq![x] + t,
                ),
            decreases tails.len() - j,
        {
            let row = prefixed(x, &tails[j]);
            let ghost prev = rows_view(r@);
            r.push(row);
            assert(rows_view(r@) =~= prev.push(seq![x] + tv[j as int]));
            assert(tv.subrange(0, j + 1).map_values(|t: Seq<usize>| seq![x] + t) =~= tv.subrange(
                0,
                j as int,
            ).map_values(|t: Seq<usize>| seq![x] + t).push(seq![x] + tv[j as int]));
            j += 1;
        }
        assert(tv.subrange(0, tails.len() as int) == tv);
        let ghost hs = heads@.subrange(0, i + 1);
        assert(hs.drop_last() == heads@.subrange(0, i as int));
        assert(hs.last() == x);
        i += 1;
    }
    assert(heads@.subrange(0, heads.len() as int) == heads@);
    r
}

/// The cartesian product of `choices`, first position slowest.
pub fn cartesian_product(choices: &Vec<Vec<usize>>) -> (r: Vec<Vec<usize>>)
    ensures
        rows_view(r@) == product(rows_view(choices@)),
{
    let ghost cv = rows_view(choices@);
    let mut acc: Vec<Vec<usize>> = Vec::new();
    acc.push(Vec::new());
    let n = choices.len();
    assert(cv.subrange(n as int, n as int) == Seq::<Seq<usize>>::empty());
    assert(rows_view(acc@) == seq![Seq::<usize>::empty()]);
    let mut k: usize = n;
    while k > 0
        invariant
            k <= n,
            n == choices.len(),
            cv == rows_view(choices@),
            rows_view(acc@) == product(cv.subrange(k as int, n as int)),
        decreases k,
    {
        k -= 1;
        let ghost suffix = cv.subrange(k as int, n as int);
        assert(suffix.drop_first() == cv.subrange(k + 1, n as int));
        assert(suffix[0] == choices@[k as int]@);
        acc = prepend_each_exec(&choices[k], &acc);
    }
    assert(cv.subrange(0, n as int) == cv);
    acc
}

proof fn lemma_prepend_each_len(heads: Seq<usize>, tails: Seq<Seq<usize>>)
    ensures
        prepend_each(heads, tails).len() == heads.len() * tails.len(),
    decreases heads.len(),
{
    if heads.len() > 0 {
        lemma_prepend_each_len(heads.drop_last(), tails);
        let a = heads.len() as int;
        let b = tails.len() as int;
        assert((a - 1) * b + b == a * b) by (nonlinear_arith);
    }
}

/// The product holds exactly as many tuples as the lengths of the lists multiply to.
pub proof fn lemma_product_len(choices: Seq<Seq<usize>>)
    ensures
        product(choices).len() == product_size(choices),
    decreases choices.len(),
{
    if choices.len() > 0 {
        lemma_product_len(choices.drop_first());
        lemma_prepend_each_len(choices[0], product(choices.drop_first()));
    }
}

proof fn lemma_prepend_each_contains(heads: Seq<usize>, tails: Seq<Seq<usize>>, s: Seq<usize>)
    ensures
        prepend_each(heads, tails).contains(s) <==> (s.len() > 0 && heads.contains(s[0])
            && tails.contains(s.drop_first())),
    decreases heads.len(),
{
    if heads.len() > 0 {
        let f = |t: Seq<usize>| seq![heads.last()] + t;
        let front = prepend_each(heads.drop_last(), tails);
        let block = tails.map_values(f);
        let all = prepend_each(heads, tails);
        assert(all == front + block);
        lemma_prepend_each_contains(heads.drop_last(), tails, s);
        if all.contains(s) {
            let i = choose|i: int| 0 <= i < all.len() && all[i] == s;
            if i >= front.len() {
                let t = tails[i - front.len()];
                assert(block[i - front.len()] == f(t));
                assert(s.drop_first() =~= t);
                assert(heads[heads.len() - 1] == s[0]);
            } else {
                assert(front[i] == s);
                let m = choose|m: int| 0 <= m < heads.drop_last().len() && heads.drop_last()[m] == s[0];
                assert(heads[m] == s[0]);
            }
        }
        if s.len() > 0 && heads.contains(s[0]) && tails.contains(s.drop_first()) {
            let m = choose|m: int| 0 <= m < heads.len() && heads[m] == s[0];
            if m == heads.len() - 1 {
                let j = choose|j: int| 0 <= j < tails.len() && tails[j] == s.drop_first();
                assert(block[j] == f(tails[j]));
                assert(f(tails[j]) =~= s);
                assert(all[front.len() + j] == s);
            } else {
                assert(heads.drop_last()[m] == s[0]);
                let i = choose|i: int| 0 <= i < front.len() && front[i] == s;
                assert(all[i] == s);
            }
        }
    }
}

/// A tuple is in the product exactly when it has one entry per list and each
/// entry is taken from its list.
pub proof fn lemma_product_contains(choices: Seq<Seq<usize>>, s: Seq<usize>)
    ensures
        product(choices).contains(s) <==> (s.len() == choices.len() && forall|k: int|
            0 <= k < choices.len() ==> #[trigger] choices[k].contains(s[k])),
    decreases choices.len(),
{
    if choices.len() == 0 {
        if s.len() == 0 {
            assert(s =~= Seq::<usize>::empty());
            assert(product(choices)[0] == s);
        }
    } else {
        let rest = choices.drop_first();
        lemma_prepend_each_contains(choices[0], product(rest), s);
        if s.len() > 0 {
            lemma_product_contains(rest, s.drop_first());
            if s.len() == choices.len() && forall|k: int|
                0 <= k < choices.len() ==> #[trigger] choices[k].contains(s[k]) {
                assert(choices[0].contains(s[0]));
                assert forall|k: int| 0 <= k < rest.len() implies #[trigger] rest[k].contains(
                    s.drop_first()[k],
                ) by {
                    assert(choices[k + 1].contains(s[k + 1]));
                }
            }
            if product(choices).contains(s) {
                assert forall|k: int| 0 <= k < choices.len() implies #[trigger] choices[k].contains(
                    s[k],
                ) by {
                    if k > 0 {
                        assert(rest[k - 1].contains(s.drop_first()[k - 1]));
                    }
                }
            }
        }
    }
}

proof fn lemma_prepend_each_no_duplicates(heads: Seq<usize>, tails: Seq<Seq<usize>>)
    requires
        heads.no_duplicates(),
        tails.no_duplicates(),
    ensures
        prepend_each(heads, tails).no_duplicates(),
    decreases heads.len(),
{
    if heads.len() > 0 {
        let x = heads.last();
        let f = |t: Seq<usize>| seq![x] + t;
        let front_heads = heads.drop_last();
        let front = prepend_each(front_heads, tails);
        let block = tails.map_values(f);
        let all = prepend_each(heads, tails);
        assert(all == front + block);
        lemma_prepend_each_no_duplicates(front_heads, tails);
        assert(!front_heads.contains(x)) by {
            if front_heads.contains(x) {
                let m = choose|m: int| 0 <= m < front_heads.len() && front_heads[m] == x;
                assert(heads[m] == heads[heads.len() - 1]);
            }
        }
        assert forall|i: int, j: int| 0 <= i < all.len() && 0 <= j < all.len() && i != j implies all[i] != all[j] by {
            if i < front.len() && j < front.len() {
            } else if i >= front.len() && j >= front.len() {
                let ti = tails[i - front.len()];
                let tj = tails[j - front.len()];
                assert(all[i] == f(ti));
                assert(all[j] == f(tj));
                if f(ti) == f(tj) {
                    assert(ti =~= f(ti).drop_first());
                    assert(tj =~= f(tj).drop_first());
                }
            } else {
                let (a, b) = if i < front.len() { (i, j) } else { (j, i) };
                let tb = tails[b - front.len()];
                assert(all[b] == f(tb));
                if all[a] == all[b] {
                    assert(front.contains(all[a]));
                    lemma_prepend_each_contains(front_heads, tails, all[a]);
                    assert(all[a][0] == x);
                }
            }
        }
    }
}

/// Where no list repeats an index, the product repeats no tuple.
pub proof fn lemma_product_no_duplicates(choices: Seq<Seq<usize>>)
    requires
        forall|k: int| 0 <= k < choices.len() ==> (#[trigger] choices[k]).no_duplicates(),
    ensures
        product(choices).no_duplicates(),
    decreases choices.len(),
{
    if choices.len() > 0 {
        let rest = choices.drop_first();
        assert forall|k: int| 0 <= k < rest.len() implies (#[trigger] rest[k]).no_duplicates() by {
            assert(rest[k] == choices[k + 1]);
        }
        lemma_product_no_duplicates(rest);
        assert(choices[0].no_duplicates());
        lemma_prepend_each_no_duplicates(choices[0], product(rest));
    }
}

/// `a` comes before `b` in lexicographic order: they agree up to some
/// position, where `a`'s entry is smaller.
pub open spec fn lex_less(a: Seq<usize>, b: Seq<usize>) -> bool {
    exists|k: int| 0 <= k < a.len() && k < b.len() && a.subrange(0, k) == b.subrange(0, k) && a[k] < b[k]
}

/// Each tuple comes before every later one.
pub open spec fn lex_sorted(rows: Seq<Seq<usize>>) -> bool {
    forall|i: int, j: int| 0 <= i < j < rows.len() ==> lex_less(#[trigger] rows[i], #[trigger] rows[j])
}

/// `s` is sorted ascending without repeats.
pub open spec fn ascending(s: Seq<usize>) -> bool {
    forall|i: int, j: int| 0 <= i < j < s.len() ==> s[i] < s[j]
}

proof fn lemma_prepend_each_sorted(heads: Seq<usize>, tails: Seq<Seq<usize>>)
    requires
        ascending(heads),
        lex_sorted(tails),
    ensures
        lex_sorted(prepend_each(heads, tails)),
    decreases heads.len(),
{
    if heads.len() > 0 {
        let x = heads.last();
        let f = |t: Seq<usize>| seq![x] + t;
        let front_heads = heads.drop_last();
        let front = prepend_each(front_heads, tails);
        let block = tails.map_values(f);
        let all = prepend_each(heads, tails);
        assert(all == front + block);
        lemma_prepend_each_sorted(front_heads, tails);
        assert forall|i: int, j: int| 0 <= i < j < all.len() implies lex_less(#[trigger] all[i], #[trigger] all[j]) by {
            if j < front.len() {
                assert(all[i] == front[i] && all[j] == front[j]);
            } else if i >= front.len() {
                let ti = tails[i - front.len()];
                let tj = tails[j - front.len()];
                assert(all[i] == f(ti) && all[j] == f(tj));
                assert(lex_less(ti, tj));
                let k = choose|k: int| 0 <= k < ti.len() && k < tj.len() && ti.subrange(0, k) == tj.subrange(0, k) && ti[k] < tj[k];
                assert(f(ti).subrange(0, k + 1) =~= seq![x] + ti.subrange(0, k));
                assert(f(tj).subrange(0, k + 1) =~= seq![x] + tj.subrange(0, k));
                assert(f(ti)[k + 1] == ti[k] && f(tj)[k + 1] == tj[k]);
            } else {
                let tj = tails[j - front.len()];
                assert(all[j] == f(tj));
                assert(front.contains(all[i]));
                lemma_prepend_each_contains(front_heads, tails, all[i]);
                let m = choose|m: int| 0 <= m < front_heads.len() && front_heads[m] == all[i][0];
                assert(heads[m] < heads[heads.len() - 1]);
                assert(all[i].subrange(0, 0) =~= all[j].subrange(0, 0));
                assert(all[j][0] == x);
            }
        }
    }
}

/// Where every list is ascending, the product lists its tuples in strictly
/// increasing lexicographic order.
pub proof fn lemma_product_sorted(choices: Seq<Seq<usize>>)
    requires
        forall|k: int| 0 <= k < choices.len() ==> ascending(#[trigger] choices[k]),
    ensures
        lex_sorted(product(choices)),
    decreases choices.len(),
{
    if choices.len() > 0 {
        let rest = choices.drop_first();
        assert forall|k: int| 0 <= k < rest.len() implies ascending(#[trigger] rest[k]) by {
            assert(rest[k] == choices[k + 1]);
        }
        lemma_product_sorted(rest);
        assert(ascending(choices[0]));
        lemma_prepend_each_sorted(choices[0], product(rest));
    }
}

} // verus!

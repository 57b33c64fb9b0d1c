//! Compressor-side preparation: per-column symbol interning in order of
//! first occurrence, the greedy mapping from input columns to stored
//! columns, and the descending sort of the declared value counts.

use vstd::prelude::*;

verus! {

/// Column `j` of the records.
pub open spec fn spec_column(recs: Seq<Seq<Seq<char>>>, j: int) -> Seq<Seq<char>> {
    Seq::new(recs.len(), |r: int| recs[r][j])
}

/// The distinct values of a column, in order of first occurrence.
pub open spec fn spec_alphabet(col: Seq<Seq<char>>) -> Seq<Seq<char>>
    decreases col.len(),
{
    if col.len() == 0 {
        Seq::empty()
    } else {
        let pre = spec_alphabet(col.drop_last());
        if pre.contains(col.last()) {
            pre
        } else {
            pre.push(col.last())
        }
    }
}

/// Index of the first occurrence of `v` in `alpha`.
pub open spec fn spec_index_in(alpha: Seq<Seq<char>>, v: Seq<char>) -> int
    decreases alpha.len(),
{
    if alpha.len() == 0 {
        0
    } else if alpha[0] == v {
        0
    } else {
        1 + spec_index_in(alpha.drop_first(), v)
    }
}

/// The first-occurrence index is in bounds and finds `v`.
pub proof fn lemma_index_in_bounds(alpha: Seq<Seq<char>>, v: Seq<char>)
    requires
        alpha.contains(v),
    ensures
        0 <= spec_index_in(alpha, v) < alpha.len(),
        alpha[spec_index_in(alpha, v)] == v,
    decreases alpha.len(),
{
    if alpha[0] != v {
        assert(alpha.drop_first().contains(v)) by {
            let w = choose|i: int| 0 <= i < alpha.len() && alpha[i] == v;
            assert(alpha.drop_first()[w - 1] == v);
        }
        lemma_index_in_bounds(alpha.drop_first(), v);
    }
}

/// A scan that finds `v` at `i` past mismatches computes the index.
proof fn lemma_index_in_first(alpha: Seq<Seq<char>>, v: Seq<char>, i: int)
    requires
        0 <= i < alpha.len(),
        alpha[i] == v,
        forall|m: int| 0 <= m < i ==> alpha[m] != v,
    ensures
        spec_index_in(alpha, v) == i,
    decreases i,
{
    if i > 0 {
        assert(forall|m: int| 0 <= m < i - 1 ==> alpha.drop_first()[m] != v);
        lemma_index_in_first(alpha.drop_first(), v, i - 1);
    }
}

/// The index of a value already present does not move when the alphabet
/// grows at the end.
proof fn lemma_index_in_stable(a1: Seq<Seq<char>>, a2: Seq<Seq<char>>, v: Seq<char>)
    requires
        a1.is_prefix_of(a2),
        a1.contains(v),
    ensures
        spec_index_in(a2, v) == spec_index_in(a1, v),
    decreases a1.len(),
{
    assert(a2[0] == a1[0]);
    if a1[0] != v {
        assert(a1.drop_first().contains(v)) by {
            let w = choose|i: int| 0 <= i < a1.len() && a1[i] == v;
            assert(a1.drop_first()[w - 1] == v);
        }
        assert(a1.drop_first().is_prefix_of(a2.drop_first()));
        lemma_index_in_stable(a1.drop_first(), a2.drop_first(), v);
    }
}

/// Index of a value just appended to an alphabet that lacked it.
proof fn lemma_index_in_new(alpha: Seq<Seq<char>>, v: Seq<char>)
    requires
        !alpha.contains(v),
    ensures
        spec_index_in(alpha.push(v), v) == alpha.len(),
    decreases alpha.len(),
{
    if alpha.len() == 0 {
        assert(alpha.push(v)[0] == v);
    } else {
        assert(alpha.push(v)[0] == alpha[0]);
        assert(alpha[0] != v);
        assert(alpha.push(v).drop_first() =~= alpha.drop_first().push(v));
        assert(!alpha.drop_first().contains(v)) by {
            if alpha.drop_first().contains(v) {
                let w = choose|i: int|
                    0 <= i < alpha.drop_first().len() && alpha.drop_first()[i] == v;
                assert(alpha[w + 1] == v);
            }
        }
        lemma_index_in_new(alpha.drop_first(), v);
    }
}

/// Every value of a column is in the column's alphabet.
pub proof fn lemma_alphabet_contains(col: Seq<Seq<char>>, r: int)
    requires
        0 <= r < col.len(),
    ensures
        spec_alphabet(col).contains(col[r]),
    decreases col.len(),
{
    let pre = spec_alphabet(col.drop_last());
    if r == col.len() - 1 {
        if pre.contains(col.last()) {
            assert(spec_alphabet(col) == pre);
        } else {
            assert(spec_alphabet(col)[pre.len() as int] == col.last());
        }
    } else {
        assert(col.drop_last()[r] == col[r]);
        lemma_alphabet_contains(col.drop_last(), r);
        if pre.contains(col.last()) {
            assert(spec_alphabet(col) == pre);
        } else {
            let w = choose|i: int| 0 <= i < pre.len() && pre[i] == col[r];
            assert(spec_alphabet(col)[w] == col[r]);
        }
    }
}

/// Round trip of interning and projection: a value interned into a
/// column's alphabet and projected through a requested alphabet equal to
/// it comes back unchanged, because the interned number stays below the
/// requested size and the modulus keeps it.
pub proof fn lemma_intern_project_roundtrip(alpha: Seq<Seq<char>>, v: Seq<char>, size: u16)
    requires
        alpha.contains(v),
        alpha.len() <= size,
    ensures
        ({
            let w = spec_index_in(alpha, v);
            &&& 0 <= w < alpha.len()
            &&& w % (size as int) == w
            &&& alpha[w % (size as int)] == v
        }),
{
    lemma_index_in_bounds(alpha, v);
    let w = spec_index_in(alpha, v);
    vstd::arithmetic::div_mod::lemma_small_mod(w as nat, size as nat);
}

/// Alphabets of longer column prefixes extend those of shorter ones.
pub proof fn lemma_alphabet_take_prefix(col: Seq<Seq<char>>, r: int)
    requires
        0 <= r <= col.len(),
    ensures
        spec_alphabet(col.take(r)).is_prefix_of(spec_alphabet(col)),
    decreases col.len() - r,
{
    if r == col.len() {
        assert(col.take(r) =~= col);
    } else {
        assert(col.take(r + 1).drop_last() =~= col.take(r));
        assert(col.take(r + 1).last() == col[r]);
        lemma_alphabet_take_prefix(col, r + 1);
        assert(spec_alphabet(col.take(r)).is_prefix_of(spec_alphabet(col.take(r + 1))));
    }
}

/// Finds the first occurrence of `v` in the alphabet.
fn find_in_alphabet(alpha: &Vec<String>, v: &String) -> (r: Option<usize>)
    ensures
        match r {
            Some(i) => alpha.deep_view().contains(v@) && i == spec_index_in(
                alpha.deep_view(),
                v@,
            ),
            None => !alpha.deep_view().contains(v@),
        },
{
    let mut i: usize = 0;
    while i < alpha.len()
        invariant
            i <= alpha@.len(),
            alpha.deep_view().len() == alpha@.len(),
            forall|m: int| 0 <= m < i ==> alpha.deep_view()[m] != v@,
        decreases alpha@.len() - i,
    {
        if alpha[i].eq(v) {
            proof {
                assert(alpha.deep_view()[i as int] == alpha@[i as int]@);
                lemma_index_in_first(alpha.deep_view(), v@, i as int);
            }
            return Some(i);
        }
        proof {
            assert(alpha.deep_view()[i as int] == alpha@[i as int]@);
        }
        i += 1;
    }
    proof {
        if alpha.deep_view().contains(v@) {
            let w = choose|m: int|
                0 <= m < alpha.deep_view().len() && alpha.deep_view()[m] == v@;
            assert(alpha.deep_view()[w] != v@);
        }
    }
    None
}

/// Whether the sequence is sorted in non-increasing order.
pub open spec fn spec_sorted_desc(s: Seq<u16>) -> bool {
    forall|i: int, j: int| 0 <= i < j < s.len() ==> s[i] >= s[j]
}

/// Sorts the value counts in descending order.
pub fn sort_desc(vs: &Vec<u16>) -> (r: Vec<u16>)
    ensures
        r@.len() == vs@.len(),
        spec_sorted_desc(r@),
        r@.to_multiset() == vs@.to_multiset(),
{
    let mut rest: Vec<u16> = Vec::new();
    let mut i: usize = 0;
    while i < vs.len()
        invariant
            i <= vs@.len(),
            rest@ == vs@.take(i as int),
        decreases vs@.len() - i,
    {
        rest.push(vs[i]);
        proof {
            assert(rest@ =~= vs@.take(i as int + 1));
        }
        i += 1;
    }
    proof {
        assert(rest@ =~= vs@);
    }
    let mut out: Vec<u16> = Vec::new();
    proof {
        broadcast use vstd::seq_lib::group_to_multiset_ensures;

        assert(forall|a: u16| !out@.contains(a));
        assert(out@.to_multiset().add(rest@.to_multiset()) =~= vs@.to_multiset());
    }
    while rest.len() > 0
        invariant
            out@.len() + rest@.len() == vs@.len(),
            spec_sorted_desc(out@),
            out@.to_multiset().add(rest@.to_multiset()) == vs@.to_multiset(),
            forall|a: int, b: int|
                0 <= a < out@.len() && 0 <= b < rest@.len() ==> out@[a] >= rest@[b],
        decreases rest@.len(),
    {
        let mut mi: usize = 0;
        let mut m: u16 = rest[0];
        let mut j: usize = 1;
        while j < rest.len()
            invariant
                1 <= j <= rest@.len(),
                mi < rest@.len(),
                m == rest@[mi as int],
                forall|m2: int| 0 <= m2 < j ==> rest@[m2] <= m,
            decreases rest@.len() - j,
        {
            if rest[j] > m {
                m = rest[j];
                mi = j;
            }
            j += 1;
        }
        let ghost old_out = out@;
        let ghost old_rest = rest@;
        out.push(m);
        rest.remove(mi);
        proof {
            broadcast use vstd::seq_lib::group_to_multiset_ensures;

            assert(old_rest.contains(old_rest[mi as int]));
            assert(out@.to_multiset() =~= old_out.to_multiset().insert(m));
            assert(rest@.to_multiset() =~= old_rest.to_multiset().remove(m));
            assert(old_rest.to_multiset().count(m) > 0);
            assert(out@.to_multiset().add(rest@.to_multiset()) =~= old_out.to_multiset().add(
                old_rest.to_multiset(),
            ));
            assert(forall|b: int| 0 <= b < rest@.len() ==> old_rest.contains(#[trigger] rest@[b]))
                by {
                assert(forall|b: int|
                    0 <= b < rest@.len() ==> rest@[b] == if b < mi {
                        old_rest[b]
                    } else {
                        old_rest[b + 1]
                    });
            }
            assert forall|b: int| 0 <= b < rest@.len() implies m >= rest@[b] by {
                let w = choose|w: int| 0 <= w < old_rest.len() && old_rest[w] == rest@[b];
            }
        }
    }
    proof {
        broadcast use vstd::seq_lib::group_to_multiset_ensures;

        assert(forall|a: u16| !rest@.contains(a));
        assert(out@.to_multiset() =~= out@.to_multiset().add(rest@.to_multiset()));
    }
    out
}

/// Interns one input column: values are numbered in order of first
/// occurrence; fails exactly when the column holds more than 65536 distinct
/// values.
fn intern_column(records: &Vec<Vec<String>>, j: usize) -> (r: Option<(Vec<u16>, Vec<String>)>)
    requires
        forall|r2: int| 0 <= r2 < records@.len() ==> #[trigger] records@[r2]@.len() > j,
    ensures
        ({
            let colv = spec_column(records.deep_view(), j as int);
            match r {
                Some((cv, alphabet)) => {
                    &&& cv@.len() == records@.len()
                    &&& alphabet.deep_view() == spec_alphabet(colv)
                    &&& spec_alphabet(colv).len() <= 0x10000
                    &&& forall|rr: int|
                        0 <= rr < cv@.len() ==> #[trigger] cv@[rr] == spec_index_in(
                            spec_alphabet(colv),
                            colv[rr],
                        ) as u16
                },
                None => spec_alphabet(colv).len() > 0x10000,
            }
        }),
{
    let ghost recsv = records.deep_view();
    let ghost colv = spec_column(recsv, j as int);
    let mut alphabet: Vec<String> = Vec::new();
    let mut cv: Vec<u16> = Vec::new();
    let mut r: usize = 0;
    proof {
        assert(colv.take(0) =~= Seq::<Seq<char>>::empty());
    }
    while r < records.len()
        invariant
            r <= records@.len(),
            recsv == records.deep_view(),
            recsv.len() == records@.len(),
            colv == spec_column(recsv, j as int),
            colv.len() == records@.len(),
            forall|r2: int| 0 <= r2 < records@.len() ==> #[trigger] records@[r2]@.len() > j,
            cv@.len() == r,
            alphabet.deep_view() == spec_alphabet(colv.take(r as int)),
            alphabet.deep_view().len() <= 0x10000,
            forall|rr: int|
                0 <= rr < r ==> #[trigger] cv@[rr] == spec_index_in(
                    spec_alphabet(colv),
                    colv[rr],
                ) as u16,
        decreases records@.len() - r,
    {
        let v: &String = &records[r][j];
        proof {
            assert(recsv[r as int] == records@[r as int].deep_view());
            assert(recsv[r as int][j as int] == records@[r as int]@[j as int]@);
            assert(v@ == colv[r as int]);
            assert(colv.take(r as int + 1).drop_last() =~= colv.take(r as int));
            assert(colv.take(r as int + 1).last() == colv[r as int]);
        }
        let ghost alpha_r = spec_alphabet(colv.take(r as int));
        let ghost alpha_r1 = spec_alphabet(colv.take(r as int + 1));
        match find_in_alphabet(&alphabet, v) {
            Some(idx) => {
                proof {
                    assert(alpha_r1 == alpha_r);
                    lemma_alphabet_take_prefix(colv, r as int);
                    lemma_index_in_stable(alpha_r, spec_alphabet(colv), v@);
                    lemma_index_in_bounds(alpha_r, v@);
                }
                cv.push(idx as u16);
            },
            None => {
                if alphabet.len() >= 65536 {
                    proof {
                        assert(alpha_r1 == alpha_r.push(colv[r as int]));
                        assert(alpha_r1.len() > 0x10000);
                        lemma_alphabet_take_prefix(colv, r as int + 1);
                        assert(spec_alphabet(colv).len() >= alpha_r1.len());
                    }
                    return None;
                }
                let idx = alphabet.len();
                alphabet.push(v.clone());
                proof {
                    assert(alphabet.deep_view() =~= alpha_r.push(v@));
                    assert(alpha_r1 == alpha_r.push(colv[r as int]));
                    lemma_index_in_new(alpha_r, v@);
                    lemma_alphabet_take_prefix(colv, r as int + 1);
                    assert(alpha_r1.contains(v@)) by {
                        assert(alpha_r1[alpha_r.len() as int] == v@);
                    }
                    lemma_index_in_stable(alpha_r1, spec_alphabet(colv), v@);
                }
                cv.push(idx as u16);
            },
        }
        r += 1;
    }
    proof {
        assert(colv.take(records@.len() as int) =~= colv);
    }
    Some((cv, alphabet))
}

/// Interns the records through the column map: row `r` of the result holds,
/// at stored column `i`, the number of `records[r][column_map[i]]` in its
/// column's first-occurrence alphabet. Fails exactly when a column read
/// through the map needs more than 65536 distinct values.
pub fn intern_rows(records: &Vec<Vec<String>>, column_map: &Vec<usize>) -> (r: Option<
    (Vec<Vec<u16>>, Vec<Vec<String>>),
>)
    requires
        forall|i: int| 0 <= i < column_map@.len() ==> #[trigger] column_map@[i]
            < column_map@.len(),
        forall|r2: int| 0 <= r2 < records@.len() ==> #[trigger] records@[r2]@.len()
            >= column_map@.len(),
    ensures
        ({
            let k = column_map@.len() as int;
            let recsv = records.deep_view();
            match r {
                Some((rows, alphabets)) => {
                    &&& rows@.len() == recsv.len()
                    &&& forall|r2: int|
                        0 <= r2 < rows@.len() ==> #[trigger] rows@[r2]@.len() == k
                    &&& alphabets@.len() == k
                    &&& forall|i: int|
                        0 <= i < k ==> #[trigger] alphabets.deep_view()[column_map@[i] as int]
                            == spec_alphabet(spec_column(recsv, column_map@[i] as int))
                    &&& forall|r2: int, i: int|
                        0 <= r2 < recsv.len() && 0 <= i < k ==> #[trigger] rows@[r2]@[i]
                            == spec_index_in(
                            spec_alphabet(spec_column(recsv, column_map@[i] as int)),
                            recsv[r2][column_map@[i] as int],
                        ) as u16
                },
                None => exists|i: int|
                    0 <= i < k && spec_alphabet(
                        spec_column(recsv, #[trigger] column_map@[i] as int),
                    ).len() > 0x10000,
            }
        }),
{
    let ghost recsv = records.deep_view();
    let k = column_map.len();
    let mut cols: Vec<Vec<u16>> = Vec::new();
    let mut alphabets: Vec<Vec<String>> = Vec::new();
    let mut i: usize = 0;
    while i < k
        invariant
            i <= k,
            k == column_map@.len(),
            alphabets@.len() == i,
        decreases k - i,
    {
        alphabets.push(Vec::new());
        i += 1;
    }
    let mut i2: usize = 0;
    while i2 < k
        invariant
            i2 <= k,
            k == column_map@.len(),
            recsv == records.deep_view(),
            recsv.len() == records@.len(),
            forall|i3: int| 0 <= i3 < column_map@.len() ==> #[trigger] column_map@[i3]
                < column_map@.len(),
            forall|r2: int| 0 <= r2 < records@.len() ==> #[trigger] records@[r2]@.len()
                >= column_map@.len(),
            cols@.len() == i2,
            alphabets@.len() == k,
            forall|i3: int|
                0 <= i3 < i2 ==> #[trigger] cols@[i3]@.len() == records@.len(),
            forall|i3: int|
                0 <= i3 < i2 ==> #[trigger] alphabets.deep_view()[column_map@[i3] as int]
                    == spec_alphabet(spec_column(recsv, column_map@[i3] as int)),
            forall|i3: int, r2: int|
                0 <= i3 < i2 && 0 <= r2 < records@.len() ==> #[trigger] cols@[i3]@[r2]
                    == spec_index_in(
                    spec_alphabet(spec_column(recsv, column_map@[i3] as int)),
                    recsv[r2][column_map@[i3] as int],
                ) as u16,
        decreases k - i2,
    {
        let j = column_map[i2];
        match intern_column(records, j) {
            Some((cv, alphabet)) => {
                cols.push(cv);
                let ghost old_deep = alphabets.deep_view();
                let ghost alphav = alphabet.deep_view();
                alphabets.set(j, alphabet);
                proof {
                    assert forall|i3: int| 0 <= i3 < i2 + 1 implies #[trigger] alphabets
                        .deep_view()[column_map@[i3] as int] == spec_alphabet(
                        spec_column(recsv, column_map@[i3] as int),
                    ) by {
                        let jj = column_map@[i3] as int;
                        assert(alphabets.deep_view()[jj] == alphabets@[jj].deep_view());
                        if jj == j as int {
                            assert(alphabets@[jj].deep_view() == alphav);
                        } else {
                            assert(alphabets@[jj].deep_view() == old_deep[jj]);
                        }
                    }
                }
            },
            None => {
                return None;
            },
        }
        i2 += 1;
    }
    let n = records.len();
    let mut rows: Vec<Vec<u16>> = Vec::new();
    let mut r2: usize = 0;
    while r2 < n
        invariant
            r2 <= n,
            n == records@.len(),
            k == column_map@.len(),
            recsv == records.deep_view(),
            recsv.len() == records@.len(),
            cols@.len() == k,
            forall|i3: int| 0 <= i3 < k ==> #[trigger] cols@[i3]@.len() == records@.len(),
            forall|i3: int, r3: int|
                0 <= i3 < k && 0 <= r3 < records@.len() ==> #[trigger] cols@[i3]@[r3]
                    == spec_index_in(
                    spec_alphabet(spec_column(recsv, column_map@[i3] as int)),
                    recsv[r3][column_map@[i3] as int],
                ) as u16,
            rows@.len() == r2,
            forall|r3: int| 0 <= r3 < r2 ==> #[trigger] rows@[r3]@.len() == k,
            forall|r3: int, i3: int|
                0 <= r3 < r2 && 0 <= i3 < k ==> #[trigger] rows@[r3]@[i3] == cols@[i3]@[r3],
        decreases n - r2,
    {
        let mut row: Vec<u16> = Vec::new();
        let mut i3: usize = 0;
        while i3 < k
            invariant
                i3 <= k,
                r2 < n,
                n == records@.len(),
                cols@.len() == k,
                forall|i4: int| 0 <= i4 < k ==> #[trigger] cols@[i4]@.len() == records@.len(),
                row@.len() == i3,
                forall|i4: int| 0 <= i4 < i3 ==> #[trigger] row@[i4] == cols@[i4]@[r2 as int],
            decreases k - i3,
        {
            row.push(cols[i3][r2]);
            i3 += 1;
        }
        rows.push(row);
        r2 += 1;
    }
    Some((rows, alphabets))
}

/// Two non-increasing arrangements of the same counts are the same
/// sequence: sorting descending has exactly one answer.
pub proof fn lemma_sorted_desc_unique(s1: Seq<u16>, s2: Seq<u16>)
    requires
        spec_sorted_desc(s1),
        spec_sorted_desc(s2),
        s1.to_multiset() == s2.to_multiset(),
    ensures
        s1 == s2,
    decreases s1.len(),
{
    broadcast use vstd::seq_lib::group_to_multiset_ensures;

    vstd::seq_lib::to_multiset_len(s1);
    vstd::seq_lib::to_multiset_len(s2);
    assert(s1.len() == s2.len());
    if s1.len() == 0 {
        assert(s1 =~= s2);
    } else {
        assert(s1[0] == s2[0]) by {
            assert(s1.contains(s1[0]));
            assert(s2.to_multiset().count(s1[0]) > 0);
            assert(s2.contains(s1[0]));
            let w2 = choose|w: int| 0 <= w < s2.len() && s2[w] == s1[0];
            assert(s2[0] >= s2[w2]);
            assert(s2.contains(s2[0]));
            assert(s1.to_multiset().count(s2[0]) > 0);
            assert(s1.contains(s2[0]));
            let w1 = choose|w: int| 0 <= w < s1.len() && s1[w] == s2[0];
            assert(s1[0] >= s1[w1]);
        }
        assert(s1.remove(0).to_multiset() =~= s1.to_multiset().remove(s1[0]));
        assert(s2.remove(0).to_multiset() =~= s2.to_multiset().remove(s2[0]));
        assert(spec_sorted_desc(s1.remove(0))) by {
            assert(forall|i: int, j: int|
                0 <= i < j < s1.remove(0).len() ==> s1.remove(0)[i] == s1[i + 1]
                    && s1.remove(0)[j] == s1[j + 1]);
        }
        assert(spec_sorted_desc(s2.remove(0))) by {
            assert(forall|i: int, j: int|
                0 <= i < j < s2.remove(0).len() ==> s2.remove(0)[i] == s2[i + 1]
                    && s2.remove(0)[j] == s2[j + 1]);
        }
        lemma_sorted_desc_unique(s1.remove(0), s2.remove(0));
        assert(s1 =~= s2) by {
            assert(forall|i: int|
                1 <= i < s1.len() ==> s1[i] == s1.remove(0)[i - 1] && s2[i] == s2.remove(0)[
                    i - 1
                ]);
        }
    }
}

/// Leftmost index at or after `from` whose declared count matches `v` and
/// which is not yet taken.
pub open spec fn spec_find_slot(vs_in: Seq<u16>, used: Seq<usize>, v: u16, from: int) -> Option<
    usize,
>
    decreases vs_in.len() - from,
{
    if from < 0 || from >= vs_in.len() {
        None
    } else if vs_in[from] == v && !used.contains(from as usize) {
        Some(from as usize)
    } else {
        spec_find_slot(vs_in, used, v, from + 1)
    }
}

/// The greedy construction of the column map: for each stored column in
/// order, the leftmost untaken input column with the same declared count.
pub open spec fn spec_column_map_rec(
    vs_in: Seq<u16>,
    vs_out: Seq<u16>,
    acc: Seq<usize>,
    i: int,
) -> Option<Seq<usize>>
    decreases vs_out.len() - i,
{
    if i < 0 || i > vs_out.len() {
        None
    } else if i == vs_out.len() {
        Some(acc)
    } else {
        match spec_find_slot(vs_in, acc, vs_out[i], 0) {
            None => None,
            Some(p) => spec_column_map_rec(vs_in, vs_out, acc.push(p), i + 1),
        }
    }
}

/// The mapping from stored columns to input columns, or `None` when some
/// stored count cannot be matched to an unused input column.
pub open spec fn spec_column_map(vs_in: Seq<u16>, vs_out: Seq<u16>) -> Option<Seq<usize>> {
    spec_column_map_rec(vs_in, vs_out, Seq::empty(), 0)
}

/// Whether the vector holds `x`.
fn contains_usize(v: &Vec<usize>, x: usize) -> (r: bool)
    ensures
        r == v@.contains(x),
{
    let mut i: usize = 0;
    while i < v.len()
        invariant
            i <= v@.len(),
            forall|m: int| 0 <= m < i ==> v@[m] != x,
        decreases v@.len() - i,
    {
        if v[i] == x {
            return true;
        }
        i += 1;
    }
    proof {
        if v@.contains(x) {
            let w = choose|m: int| 0 <= m < v@.len() && v@[m] == x;
            assert(v@[w] != x);
        }
    }
    false
}

/// Builds the greedy mapping from stored columns (descending counts) to
/// input columns: `r[i]` is the input column read for stored column `i`.
pub fn generate_column_map(vs_in: &Vec<u16>, vs_out: &Vec<u16>) -> (r: Option<Vec<usize>>)
    ensures
        match spec_column_map(vs_in@, vs_out@) {
            Some(m) => r matches Some(mv) && mv@ == m,
            None => r is None,
        },
{
    let mut acc: Vec<usize> = Vec::new();
    let mut i: usize = 0;
    while i < vs_out.len()
        invariant
            i <= vs_out@.len(),
            acc@.len() == i,
            spec_column_map(vs_in@, vs_out@) == spec_column_map_rec(
                vs_in@,
                vs_out@,
                acc@,
                i as int,
            ),
        decreases vs_out@.len() - i,
    {
        let v = vs_out[i];
        let mut p: usize = 0;
        let mut found: Option<usize> = None;
        while found.is_none() && p < vs_in.len()
            invariant
                p <= vs_in@.len(),
                found matches Some(q) ==> spec_find_slot(vs_in@, acc@, v, 0) == Some(q),
                found is None ==> spec_find_slot(vs_in@, acc@, v, 0) == spec_find_slot(
                    vs_in@,
                    acc@,
                    v,
                    p as int,
                ),
            decreases vs_in@.len() - p + (if found is None { 1int } else { 0int }),
        {
            if vs_in[p] == v && !contains_usize(&acc, p) {
                found = Some(p);
            } else {
                p += 1;
            }
        }
        match found {
            Some(p2) => {
                proof {
                    assert(spec_find_slot(vs_in@, acc@, v, 0) == Some(p2));
                }
                acc.push(p2);
            },
            None => {
                proof {
                    assert(spec_find_slot(vs_in@, acc@, v, 0) is None);
                }
                return None;
            },
        }
        i += 1;
    }
    Some(acc)
}

} // verus!

//! Points, their lexicographic order, and the ranking that assigns vertex
//! labels.

use vstd::prelude::*;

verus! {

/// An immutable coordinate vector. Each coordinate is the integer key of a
/// real number, chosen so that keys are ordered as the numbers are.
#[derive(Debug, Clone, PartialEq, Eq)]
pub struct Point {
    pub coordinates: Vec<i64>,
}

impl View for Point {
    type V = Seq<i64>;

    open spec fn view(&self) -> Seq<i64> {
        self.coordinates@
    }
}

/// The coordinate vectors of a list of points.
pub open spec fn coordinate_rows(points: Seq<Point>) -> Seq<Seq<i64>> {
    Seq::new(points.len(), |i: int| points[i]@)
}

/// All rows have the length of the first one.
pub open spec fn uniform_dimension(rows: Seq<Seq<i64>>) -> bool {
    forall|i: int| 0 <= i < rows.len() ==> (#[trigger] rows[i]).len() == rows[0].len()
}

/// `a` and `b` agree before position `k`, and `a` is smaller there.
pub open spec fn decides(a: Seq<i64>, b: Seq<i64>, k: int) -> bool {
    &&& 0 <= k < a.len()
    &&& k < b.len()
    &&& a[k] < b[k]
    &&& forall|j: int| 0 <= j < k ==> a[j] == b[j]
}

/// Strict lexicographic order on coordinate vectors of equal length: the
/// first differing component decides.
pub open spec fn lex_lt(a: Seq<i64>, b: Seq<i64>) -> bool {
    exists|k: int| decides(a, b, k)
}

/// Input position `a` comes before input position `b` in the ranking: its
/// point is smaller, or the points are equal and `a` came first.
pub open spec fn precedes(rows: Seq<Seq<i64>>, a: int, b: int) -> bool {
    lex_lt(rows[a], rows[b]) || (!lex_lt(rows[b], rows[a]) && a < b)
}

/// `order` lists every input position exactly once, in ranking order.
pub open spec fn is_ranking(rows: Seq<Seq<i64>>, order: Seq<usize>) -> bool {
    &&& order.len() == rows.len()
    &&& forall|x: int| 0 <= x < order.len() ==> (#[trigger] order[x]) < rows.len()
    &&& forall|k: int| 0 <= k < rows.len() ==> #[trigger] order.contains(k as usize)
    &&& forall|x: int, y: int|
        0 <= x < y < order.len() ==> precedes(rows, #[trigger] order[x] as int, #[trigger] order[y] as int)
}

/// Two vectors of equal length are equal or ordered one way or the other.
pub proof fn lemma_lex_total(a: Seq<i64>, b: Seq<i64>, k: nat)
    requires
        a.len() == b.len(),
        k <= a.len(),
        forall|j: int| 0 <= j < k ==> a[j] == b[j],
    ensures
        lex_lt(a, b) || lex_lt(b, a) || a == b,
    decreases a.len() - k,
{
    if k == a.len() {
        assert(a =~= b);
    } else if a[k as int] < b[k as int] {
        assert(decides(a, b, k as int));
    } else if b[k as int] < a[k as int] {
        assert(decides(b, a, k as int));
    } else {
        lemma_lex_total(a, b, k + 1);
    }
}

/// The order is asymmetric.
pub proof fn lemma_lex_asymmetric(a: Seq<i64>, b: Seq<i64>)
    requires
        lex_lt(a, b),
    ensures
        !lex_lt(b, a),
{
    let k = choose|k: int| decides(a, b, k);
    if lex_lt(b, a) {
        let m = choose|m: int| decides(b, a, m);
        if m < k {
        } else if k < m {
        }
    }
}

/// Smaller than a vector that is not above `c` means smaller than `c`.
pub proof fn lemma_lex_chain(a: Seq<i64>, b: Seq<i64>, c: Seq<i64>)
    requires
        a.len() == b.len(),
        b.len() == c.len(),
        lex_lt(a, b),
        !lex_lt(c, b),
    ensures
        lex_lt(a, c),
{
    let k = choose|k: int| decides(a, b, k);
    lemma_lex_total(b, c, 0);
    if b == c {
    } else {
        let m = choose|m: int| decides(b, c, m);
        if k <= m {
            assert(decides(a, c, k));
        } else {
            assert(decides(a, c, m));
        }
    }
}

/// Of two different input positions exactly one precedes the other, and
/// none precedes itself.
pub proof fn lemma_precedes_asymmetric(rows: Seq<Seq<i64>>, a: int, b: int)
    ensures
        !(precedes(rows, a, b) && precedes(rows, b, a)),
{
    if lex_lt(rows[a], rows[b]) {
        lemma_lex_asymmetric(rows[a], rows[b]);
    }
    if lex_lt(rows[b], rows[a]) {
        lemma_lex_asymmetric(rows[b], rows[a]);
    }
}

/// A list of points has one ranking only: the labels depend on nothing but
/// the points and the order in which they were given.
pub proof fn lemma_ranking_unique(rows: Seq<Seq<i64>>, a: Seq<usize>, b: Seq<usize>)
    requires
        is_ranking(rows, a),
        is_ranking(rows, b),
    ensures
        a == b,
{
    assert forall|m: int| 0 <= m < a.len() implies a[m] == b[m] by {
        lemma_same_start(rows, a, b, m);
    }
    assert(a =~= b);
}

proof fn lemma_same_start(rows: Seq<Seq<i64>>, a: Seq<usize>, b: Seq<usize>, m: int)
    requires
        is_ranking(rows, a),
        is_ranking(rows, b),
        0 <= m < a.len(),
    ensures
        a[m] == b[m],
    decreases m,
{
    assert forall|x: int| 0 <= x < m implies a[x] == b[x] by {
        lemma_same_start(rows, a, b, x);
    }
    if a[m] != b[m] {
        assert(b.contains(a[m] as int as usize));
        let y = choose|y: int| 0 <= y < b.len() && b[y] == a[m];
        if y < m {
            assert(a[y] == b[y]);
            assert(precedes(rows, a[y] as int, a[m] as int));
            lemma_precedes_asymmetric(rows, a[m] as int, a[m] as int);
        }
        assert(precedes(rows, b[m] as int, b[y] as int));
        assert(a.contains(b[m] as int as usize));
        let z = choose|z: int| 0 <= z < a.len() && a[z] == b[m];
        if z < m {
            assert(a[z] == b[z]);
            assert(precedes(rows, b[z] as int, b[m] as int));
            lemma_precedes_asymmetric(rows, b[m] as int, b[m] as int);
        }
        assert(precedes(rows, a[m] as int, a[z] as int));
        lemma_precedes_asymmetric(rows, a[m] as int, b[m] as int);
    }
}

/// Whether `a` comes strictly before `b` in lexicographic order.
pub fn lex_less(a: &Vec<i64>, b: &Vec<i64>) -> (r: bool)
    requires
        a.len() == b.len(),
    ensures
        r == lex_lt(a@, b@),
{
    let mut i: usize = 0;
    while i < a.len()
        invariant
            a.len() == b.len(),
            i <= a.len(),
            forall|j: int| 0 <= j < i ==> a@[j] == b@[j],
        decreases a.len() - i,
    {
        if a[i] < b[i] {
            assert(decides(a@, b@, i as int));
            return true;
        }
        if a[i] > b[i] {
            assert forall|k: int| !decides(a@, b@, k) by {
                if decides(a@, b@, k) {
                    if k > i {
                        assert(a@[i as int] == b@[i as int]);
                    }
                }
            }
            return false;
        }
        i += 1;
    }
    assert forall|k: int| !decides(a@, b@, k) by {}
    false
}

/// Whether every point has as many coordinates as the first.
pub fn same_dimension(points: &Vec<Point>) -> (r: bool)
    ensures
        r == uniform_dimension(coordinate_rows(points@)),
{
    let ghost rows = coordinate_rows(points@);
    let mut i: usize = 0;
    while i < points.len()
        invariant
            i <= points.len(),
            rows == coordinate_rows(points@),
            forall|j: int| 0 <= j < i ==> (#[trigger] rows[j]).len() == rows[0].len(),
        decreases points.len() - i,
    {
        if points[i].coordinates.len() != points[0].coordinates.len() {
            assert(rows[i as int].len() != rows[0].len());
            return false;
        }
        i += 1;
    }
    true
}

/// A copy of a point.
pub fn copy_point(p: &Point) -> (r: Point)
    ensures
        r@ == p@,
{
    let mut coordinates: Vec<i64> = Vec::new();
    let mut i: usize = 0;
    while i < p.coordinates.len()
        invariant
            i <= p.coordinates.len(),
            coordinates@ == p.coordinates@.take(i as int),
        decreases p.coordinates.len() - i,
    {
        coordinates.push(p.coordinates[i]);
        assert(coordinates@ =~= p.coordinates@.take(i + 1));
        i += 1;
    }
    assert(p.coordinates@.take(i as int) =~= p.coordinates@);
    Point { coordinates }
}

/// The input positions in ranking order: ascending by point, equal points in
/// the order in which they were given.
pub fn rank_order(points: &Vec<Point>) -> (order: Vec<usize>)
    requires
        uniform_dimension(coordinate_rows(points@)),
    ensures
        is_ranking(coordinate_rows(points@), order@),
{
    let ghost rows = coordinate_rows(points@);
    let mut order: Vec<usize> = Vec::new();
    let mut i: usize = 0;
    while i < points.len()
        invariant
            i <= points.len(),
            rows == coordinate_rows(points@),
            uniform_dimension(rows),
            order.len() == i,
            forall|x: int| 0 <= x < order.len() ==> (#[trigger] order@[x]) < i,
            forall|k: int| 0 <= k < i ==> #[trigger] order@.contains(k as usize),
            forall|x: int, y: int|
                0 <= x < y < order.len() ==> precedes(
                    rows,
                    #[trigger] order@[x] as int,
                    #[trigger] order@[y] as int,
                ),
        decreases points.len() - i,
    {
        let mut j: usize = order.len();
        let mut scanning: bool = j > 0;
        while scanning
            invariant
                j <= order.len(),
                i < points.len(),
                order.len() == i,
                rows == coordinate_rows(points@),
                uniform_dimension(rows),
                scanning ==> j > 0,
                !scanning ==> j == 0 || !lex_lt(rows[i as int], rows[order@[j - 1] as int]),
                forall|x: int| 0 <= x < order.len() ==> (#[trigger] order@[x]) < i,
                forall|x: int|
                    j <= x < order.len() ==> lex_lt(rows[i as int], rows[#[trigger] order@[x] as int]),
            decreases j + (if scanning { 1int } else { 0int }),
        {
            let other: usize = order[j - 1];
            assert(rows[i as int].len() == rows[0].len());
            assert(rows[other as int].len() == rows[0].len());
            if lex_less(&points[i].coordinates, &points[other].coordinates) {
                j -= 1;
                scanning = j > 0;
            } else {
                scanning = false;
            }
        }
        let ghost before = order@;
        order.insert(j, i);
        proof {
            let after = order@;
            assert forall|x: int, y: int| 0 <= x < y < after.len() implies precedes(
                rows,
                #[trigger] after[x] as int,
                #[trigger] after[y] as int,
            ) by {
                if y < j {
                    assert(after[x] == before[x] && after[y] == before[y]);
                } else if y == j {
                    assert(after[x] == before[x]);
                    let last = before[j - 1] as int;
                    let here = before[x] as int;
                    assert(!lex_lt(rows[i as int], rows[last]));
                    assert(rows[i as int].len() == rows[0].len());
                    assert(rows[here].len() == rows[0].len());
                    assert(rows[last].len() == rows[0].len());
                    if x < j - 1 {
                        assert(precedes(rows, here, last));
                        if lex_lt(rows[here], rows[last]) {
                            lemma_lex_asymmetric(rows[here], rows[last]);
                        }
                        if lex_lt(rows[i as int], rows[here]) {
                            lemma_lex_chain(rows[i as int], rows[here], rows[last]);
                        }
                    }
                } else if x == j {
                    assert(after[y] == before[y - 1]);
                } else if x < j {
                    assert(after[x] == before[x] && after[y] == before[y - 1]);
                } else {
                    assert(after[x] == before[x - 1] && after[y] == before[y - 1]);
                }
            }
            assert forall|k: int| 0 <= k < i + 1 implies #[trigger] after.contains(k as usize) by {
                if k == i {
                    assert(after[j as int] == i);
                } else {
                    assert(before.contains(k as usize));
                    let x = choose|x: int| 0 <= x < before.len() && before[x] == k as usize;
                    if x < j {
                        assert(after[x] == k as usize);
                    } else {
                        assert(after[x + 1] == k as usize);
                    }
                }
            }
            assert forall|x: int| 0 <= x < after.len() implies (#[trigger] after[x]) < i + 1 by {
                if x < j {
                    assert(after[x] == before[x]);
                } else if x > j {
                    assert(after[x] == before[x - 1]);
                }
            }
        }
        i += 1;
    }
    order
}

} // verus!

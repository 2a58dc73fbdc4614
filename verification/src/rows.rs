//! Answer rows with free components, and an ordered set of them.

use vstd::prelude::*;
use crate::order::{bytes_lt, lemma_lt_total, lemma_lt_trans, lt};

verus! {

/// A row as byte strings: `None` is a free component.
pub open spec fn row_of(row: Seq<Option<Vec<u8>>>) -> Seq<Option<Seq<u8>>> {
    row.map_values(
        |c: Option<Vec<u8>>|
            match c {
                Some(g) => Some(g@),
                None => None,
            },
    )
}

/// A free component comes before every value, and values are in byte order.
pub open spec fn part_lt(a: Option<Seq<u8>>, b: Option<Seq<u8>>) -> bool {
    match (a, b) {
        (None, Some(_)) => true,
        (Some(x), Some(y)) => lt(x, y),
        _ => false,
    }
}

/// `a` and `b` agree on their first `i` components, and there `a` ends or is smaller.
pub open spec fn row_lt_at(a: Seq<Option<Seq<u8>>>, b: Seq<Option<Seq<u8>>>, i: int) -> bool {
    &&& 0 <= i <= a.len()
    &&& i < b.len()
    &&& a.take(i) == b.take(i)
    &&& i == a.len() || part_lt(a[i], b[i])
}

/// `a` comes before `b` in the order of their components, the first one first.
pub open spec fn row_lt(a: Seq<Option<Seq<u8>>>, b: Seq<Option<Seq<u8>>>) -> bool {
    exists|i: int| row_lt_at(a, b, i)
}

proof fn lemma_part_total(a: Option<Seq<u8>>, b: Option<Seq<u8>>)
    ensures
        part_lt(a, b) || a == b || part_lt(b, a),
        !(part_lt(a, b) && part_lt(b, a)),
        part_lt(a, b) ==> a != b,
{
    match (a, b) {
        (Some(x), Some(y)) => {
            lemma_lt_total(x, y);
        },
        _ => {},
    }
}

proof fn lemma_part_trans(a: Option<Seq<u8>>, b: Option<Seq<u8>>, c: Option<Seq<u8>>)
    requires
        part_lt(a, b),
        part_lt(b, c),
    ensures
        part_lt(a, c),
{
    match (a, b, c) {
        (Some(x), Some(y), Some(z)) => {
            lemma_lt_trans(x, y, z);
        },
        _ => {},
    }
}

/// The first component on which two rows differ decides.
proof fn lemma_row_at(a: Seq<Option<Seq<u8>>>, b: Seq<Option<Seq<u8>>>, i: int)
    requires
        0 <= i <= a.len(),
        i <= b.len(),
        a.take(i) == b.take(i),
    ensures
        row_lt(a, b) || a == b || row_lt(b, a),
    decreases a.len() - i,
{
    if i == a.len() {
        if i < b.len() {
            assert(row_lt_at(a, b, i));
        } else {
            assert(a =~= a.take(i) && b =~= b.take(i));
        }
    } else if i == b.len() {
        assert(row_lt_at(b, a, i));
    } else {
        lemma_part_total(a[i], b[i]);
        if part_lt(a[i], b[i]) {
            assert(row_lt_at(a, b, i));
        } else if part_lt(b[i], a[i]) {
            assert(row_lt_at(b, a, i));
        } else {
            assert(a.take(i + 1) =~= a.take(i).push(a[i]));
            assert(b.take(i + 1) =~= b.take(i).push(b[i]));
            lemma_row_at(a, b, i + 1);
        }
    }
}

/// Exactly one of `row_lt(a, b)`, `a == b`, `row_lt(b, a)` holds.
pub proof fn lemma_row_total(a: Seq<Option<Seq<u8>>>, b: Seq<Option<Seq<u8>>>)
    ensures
        row_lt(a, b) || a == b || row_lt(b, a),
        !(row_lt(a, b) && row_lt(b, a)),
        row_lt(a, b) ==> a != b,
{
    assert(a.take(0) =~= b.take(0));
    lemma_row_at(a, b, 0);
    if row_lt(a, b) && (a == b || row_lt(b, a)) {
        let i = choose|i: int| row_lt_at(a, b, i);
        if a == b {
            lemma_part_total(a[i], b[i]);
        } else {
            let j = choose|j: int| row_lt_at(b, a, j);
            if i < j {
                assert(a[i] == a.take(j)[i] && b[i] == b.take(j)[i]);
                lemma_part_total(a[i], b[i]);
            } else if j < i {
                assert(a[j] == a.take(i)[j] && b[j] == b.take(i)[j]);
                lemma_part_total(a[j], b[j]);
            } else {
                lemma_part_total(a[i], b[i]);
            }
        }
    }
}

pub proof fn lemma_row_trans(
    a: Seq<Option<Seq<u8>>>,
    b: Seq<Option<Seq<u8>>>,
    c: Seq<Option<Seq<u8>>>,
)
    requires
        row_lt(a, b),
        row_lt(b, c),
    ensures
        row_lt(a, c),
{
    let i = choose|i: int| row_lt_at(a, b, i);
    let j = choose|j: int| row_lt_at(b, c, j);
    let k = if i < j {
        i
    } else {
        j
    };
    assert(a.take(k) =~= c.take(k)) by {
        assert(a.take(k) =~= a.take(i).take(k));
        assert(b.take(k) =~= b.take(i).take(k));
        assert(b.take(k) =~= b.take(j).take(k));
        assert(c.take(k) =~= c.take(j).take(k));
    }
    if i < j {
        assert(b[i] == b.take(j)[i] && c[i] == c.take(j)[i]);
    } else if j < i {
        assert(a[j] == a.take(i)[j] && b[j] == b.take(i)[j]);
    } else if i < a.len() {
        lemma_part_trans(a[i], b[i], c[i]);
    }
    assert(row_lt_at(a, c, k));
}

/// Whether component `a` comes before component `b`.
fn part_before(a: &Option<Vec<u8>>, b: &Option<Vec<u8>>) -> (r: bool)
    ensures
        r == part_lt(row_of(seq![*a])[0], row_of(seq![*b])[0]),
{
    match (a, b) {
        (None, Some(_)) => true,
        (Some(x), Some(y)) => bytes_lt(x, y),
        _ => false,
    }
}

/// Whether row `a` comes before row `b`.
pub fn row_before(a: &Vec<Option<Vec<u8>>>, b: &Vec<Option<Vec<u8>>>) -> (r: bool)
    ensures
        r == row_lt(row_of(a@), row_of(b@)),
{
    let ghost x = row_of(a@);
    let ghost y = row_of(b@);
    let mut i: usize = 0;
    while i < a.len() && i < b.len()
        invariant
            i <= a@.len(),
            i <= b@.len(),
            x == row_of(a@),
            y == row_of(b@),
            x.take(i as int) == y.take(i as int),
        decreases a@.len() - i,
    {
        proof {
            lemma_row_total(x, y);
            assert(row_of(seq![a@[i as int]])[0] == x[i as int]);
            assert(row_of(seq![b@[i as int]])[0] == y[i as int]);
            lemma_part_total(x[i as int], y[i as int]);
        }
        if part_before(&a[i], &b[i]) {
            assert(row_lt_at(x, y, i as int));
            return true;
        }
        if part_before(&b[i], &a[i]) {
            assert(row_lt_at(y, x, i as int));
            return false;
        }
        proof {
            assert(x.take(i + 1) =~= x.take(i as int).push(x[i as int]));
            assert(y.take(i + 1) =~= y.take(i as int).push(y[i as int]));
        }
        i += 1;
    }
    proof {
        lemma_row_total(x, y);
        if i < b@.len() {
            assert(row_lt_at(x, y, i as int));
        } else if i < a@.len() {
            assert(row_lt_at(y, x, i as int));
        } else {
            assert(x =~= x.take(i as int) && y =~= y.take(i as int));
        }
    }
    i < b.len()
}

/// The rows are strictly ascending.
pub open spec fn ascending(rows: Seq<Vec<Option<Vec<u8>>>>) -> bool {
    forall|i: int, j: int|
        #![trigger rows[i], rows[j]]
        0 <= i < j < rows.len() ==> row_lt(row_of(rows[i]@), row_of(rows[j]@))
}

/// `row` is one of the rows.
pub open spec fn has_row(rows: Seq<Vec<Option<Vec<u8>>>>, row: Seq<Option<Seq<u8>>>) -> bool {
    exists|i: int| 0 <= i < rows.len() && row_of((#[trigger] rows[i])@) == row
}

/// Insert `row` where it belongs, unless it is there.
pub fn insert_row(rows: &mut Vec<Vec<Option<Vec<u8>>>>, row: Vec<Option<Vec<u8>>>)
    requires
        ascending(old(rows)@),
    ensures
        ascending(final(rows)@),
        forall|r: Seq<Option<Seq<u8>>>| #[trigger]
            has_row(final(rows)@, r) == (has_row(old(rows)@, r) || r == row_of(row@)),
{
    let ghost start = rows@;
    let ghost new = row_of(row@);
    let mut lo: usize = 0;
    let mut hi: usize = rows.len();
    while lo < hi
        invariant
            start == rows@,
            ascending(start),
            new == row_of(row@),
            lo <= hi <= start.len(),
            forall|i: int| 0 <= i < lo ==> row_lt(row_of((#[trigger] start[i])@), new),
            forall|i: int| hi <= i < start.len() ==> !row_lt(row_of((#[trigger] start[i])@), new),
        decreases hi - lo,
    {
        let mid = lo + (hi - lo) / 2;
        if row_before(&rows[mid], &row) {
            proof {
                assert forall|i: int| 0 <= i < mid + 1 implies row_lt(
                    row_of((#[trigger] start[i])@),
                    new,
                ) by {
                    if i < mid {
                        lemma_row_trans(row_of(start[i]@), row_of(start[mid as int]@), new);
                    }
                }
            }
            lo = mid + 1;
        } else {
            proof {
                assert forall|i: int| mid <= i < start.len() implies !row_lt(
                    row_of((#[trigger] start[i])@),
                    new,
                ) by {
                    if mid < i && row_lt(row_of(start[i]@), new) {
                        lemma_row_trans(row_of(start[mid as int]@), row_of(start[i]@), new);
                    }
                }
            }
            hi = mid;
        }
    }
    if lo < rows.len() && !row_before(&row, &rows[lo]) {
        proof {
            lemma_row_total(new, row_of(start[lo as int]@));
            assert(row_of(start[lo as int]@) == new);
        }
        return ;
    }
    rows.insert(lo, row);
    proof {
        let after = rows@;
        assert(after[lo as int] == row);
        assert forall|i: int| 0 <= i < start.len() implies #[trigger] start[i] == after[if i < lo {
            i
        } else {
            i + 1
        }] by {}
        assert forall|i: int| lo <= i < start.len() implies row_lt(
            new,
            row_of((#[trigger] start[i])@),
        ) by {
            if i > lo {
                lemma_row_trans(new, row_of(start[lo as int]@), row_of(start[i]@));
            }
        }
        assert forall|i: int, j: int|
            #![trigger after[i], after[j]]
            0 <= i < j < after.len() implies row_lt(row_of(after[i]@), row_of(after[j]@)) by {
            let i0 = if i <= lo {
                i
            } else {
                i - 1
            };
            let j0 = if j <= lo {
                j
            } else {
                j - 1
            };
            if i != lo && j != lo {
                assert(after[i] == start[i0] && after[j] == start[j0]);
            } else if i == lo {
                assert(after[j] == start[j0]);
            } else {
                assert(after[i] == start[i0]);
            }
        }
        assert forall|r: Seq<Option<Seq<u8>>>| #[trigger] has_row(after, r) == (has_row(start, r)
            || r == new) by {
            if has_row(after, r) {
                let i = choose|i: int| 0 <= i < after.len() && row_of((#[trigger] after[i])@) == r;
                if i < lo {
                    assert(start[i] == after[i]);
                } else if i > lo {
                    assert(start[i - 1] == after[i]);
                }
            }
            if has_row(start, r) {
                let i = choose|i: int| 0 <= i < start.len() && row_of((#[trigger] start[i])@) == r;
                if i < lo {
                    assert(row_of(after[i]@) == r);
                } else {
                    assert(row_of(after[i + 1]@) == r);
                }
            }
        }
    }
}

} // verus!

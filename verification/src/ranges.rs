//! Sets of line numbers held as sorted, separated ranges.

use vstd::prelude::*;

use crate::model::LineRange;

verus! {

/// Line `n` lies in the range.
pub open spec fn in_range(r: LineRange, n: int) -> bool {
    r.start <= n && n <= r.end
}

/// Line `n` lies in one of the ranges.
pub open spec fn covers(rs: Seq<LineRange>, n: int) -> bool {
    exists|i: int| 0 <= i < rs.len() && in_range(#[trigger] rs[i], n)
}

/// Every range is non-empty and ends before the largest line number.
pub open spec fn ranges_valid(rs: Seq<LineRange>) -> bool {
    forall|i: int| 0 <= i < rs.len() ==> #[trigger] rs[i].start <= rs[i].end && rs[i].end < usize::MAX
}

/// The ranges come in ascending order with at least one line between two
/// of them: the one way to write a set of lines as ranges.
pub open spec fn separated(rs: Seq<LineRange>) -> bool {
    forall|i: int, j: int| 0 <= i < j < rs.len() ==> #[trigger] rs[i].end + 1 < #[trigger] rs[j].start
}

/// The ranges cover the same lines.
pub open spec fn same_lines(a: Seq<LineRange>, b: Seq<LineRange>) -> bool {
    forall|n: int| covers(a, n) <==> covers(b, n)
}

/// Ranges in ascending order of their first line.
spec fn starts_sorted(rs: Seq<LineRange>) -> bool {
    forall|i: int, j: int| 0 <= i < j < rs.len() ==> #[trigger] rs[i].start <= #[trigger] rs[j].start
}

/// The ranges in ascending order of their first line.
fn sort_by_start(lines: &Vec<LineRange>) -> (sorted: Vec<LineRange>)
    requires
        ranges_valid(lines@),
    ensures
        ranges_valid(sorted@),
        starts_sorted(sorted@),
        same_lines(sorted@, lines@),
{
    let mut sorted: Vec<LineRange> = Vec::new();
    let mut k: usize = 0;
    while k < lines.len()
        invariant
            k <= lines@.len(),
            ranges_valid(lines@),
            ranges_valid(sorted@),
            starts_sorted(sorted@),
            forall|n: int| covers(sorted@, n) <==> covers(lines@.take(k as int), n),
        decreases lines.len() - k,
    {
        let r = lines[k];
        let mut j: usize = 0;
        while j < sorted.len() && sorted[j].start <= r.start
            invariant
                j <= sorted@.len(),
                forall|i: int| 0 <= i < j ==> #[trigger] sorted@[i].start <= r.start,
            decreases sorted.len() - j,
        {
            j += 1;
        }
        let ghost before = sorted@;
        sorted.insert(j, r);
        proof {
            assert(sorted@ =~= before.insert(j as int, r));
            assert forall|a: int, b: int| 0 <= a < b < sorted@.len() implies #[trigger] sorted@[a].start
                <= #[trigger] sorted@[b].start by {
                if b < j {
                    assert(sorted@[a] == before[a] && sorted@[b] == before[b]);
                } else if b == j {
                    assert(sorted@[a] == before[a]);
                } else if a < j {
                    assert(sorted@[a] == before[a] && sorted@[b] == before[b - 1]);
                } else if a == j {
                    assert(sorted@[b] == before[b - 1]);
                    assert(j < before.len());
                    assert(before[j as int].start > r.start);
                } else {
                    assert(sorted@[a] == before[a - 1] && sorted@[b] == before[b - 1]);
                }
            }
            assert forall|i: int| 0 <= i < sorted@.len() implies #[trigger] sorted@[i].start <= sorted@[i].end
                && sorted@[i].end < usize::MAX by {
                if i < j {
                    assert(sorted@[i] == before[i]);
                } else if i > j {
                    assert(sorted@[i] == before[i - 1]);
                } else {
                    assert(sorted@[i] == lines@[k as int]);
                }
            }
            let taken = lines@.take(k + 1);
            assert(taken =~= lines@.take(k as int).push(r));
            assert forall|n: int| covers(sorted@, n) <==> covers(taken, n) by {
                if covers(sorted@, n) {
                    let i = choose|i: int| 0 <= i < sorted@.len() && in_range(#[trigger] sorted@[i], n);
                    if i < j {
                        assert(sorted@[i] == before[i]);
                        assert(covers(before, n));
                        let t = choose|t: int| 0 <= t < k && in_range(#[trigger] lines@.take(k as int)[t], n);
                        assert(taken[t] == lines@.take(k as int)[t]);
                    } else if i > j {
                        assert(sorted@[i] == before[i - 1]);
                        assert(covers(before, n));
                        let t = choose|t: int| 0 <= t < k && in_range(#[trigger] lines@.take(k as int)[t], n);
                        assert(taken[t] == lines@.take(k as int)[t]);
                    } else {
                        assert(taken[k as int] == r);
                    }
                }
                if covers(taken, n) {
                    let t = choose|t: int| 0 <= t < taken.len() && in_range(#[trigger] taken[t], n);
                    if t < k {
                        assert(lines@.take(k as int)[t] == taken[t]);
                        assert(covers(lines@.take(k as int), n));
                        assert(covers(before, n));
                        let i = choose|i: int| 0 <= i < before.len() && in_range(#[trigger] before[i], n);
                        if i < j {
                            assert(sorted@[i] == before[i]);
                        } else {
                            assert(sorted@[i + 1] == before[i]);
                        }
                    } else {
                        assert(sorted@[j as int] == r);
                    }
                }
            }
        }
        k += 1;
    }
    assert(lines@.take(k as int) =~= lines@);
    sorted
}

/// The lines of the ranges as sorted ranges with a line between each two:
/// overlapping and adjacent ranges merged.
pub fn merged_ranges(lines: &Vec<LineRange>) -> (merged: Vec<LineRange>)
    requires
        ranges_valid(lines@),
    ensures
        ranges_valid(merged@),
        separated(merged@),
        same_lines(merged@, lines@),
{
    let sorted = sort_by_start(lines);
    let mut merged: Vec<LineRange> = Vec::new();
    let mut k: usize = 0;
    while k < sorted.len()
        invariant
            k <= sorted@.len(),
            ranges_valid(sorted@),
            starts_sorted(sorted@),
            ranges_valid(merged@),
            separated(merged@),
            forall|n: int| covers(merged@, n) <==> covers(sorted@.take(k as int), n),
            k > 0 ==> merged@.len() > 0,
            merged@.len() > 0 ==> forall|j: int| k <= j < sorted@.len() ==> merged@.last().start <= #[trigger] sorted@[j].start,
            merged@.len() > 0 ==> forall|n: int| covers(merged@, n) ==> n <= merged@.last().end,
        decreases sorted.len() - k,
    {
        let r = sorted[k];
        let ghost before = merged@;
        let ghost taken = sorted@.take(k + 1);
        proof {
            assert(taken =~= sorted@.take(k as int).push(r));
            assert(taken[k as int] == r);
        }
        let n = merged.len();
        if n > 0 && r.start <= merged[n - 1].end + 1 {
            let last = merged[n - 1];
            let end = if r.end > last.end { r.end } else { last.end };
            merged.set(n - 1, LineRange { start: last.start, end });
            proof {
                assert(merged@ =~= before.update(n - 1, LineRange { start: last.start, end }));
                assert forall|a: int, b: int| 0 <= a < b < merged@.len() implies #[trigger] merged@[a].end + 1
                    < #[trigger] merged@[b].start by {
                    assert(merged@[a] == before[a]);
                    if b < n - 1 {
                        assert(merged@[b] == before[b]);
                    } else {
                        assert(before[a].end + 1 < before[b].start);
                    }
                }
                assert forall|x: int| covers(merged@, x) <==> covers(taken, x) by {
                    if covers(merged@, x) {
                        let i = choose|i: int| 0 <= i < merged@.len() && in_range(#[trigger] merged@[i], x);
                        if i < n - 1 {
                            assert(merged@[i] == before[i]);
                            assert(covers(before, x));
                            let t = choose|t: int| 0 <= t < k && in_range(#[trigger] sorted@.take(k as int)[t], x);
                            assert(taken[t] == sorted@.take(k as int)[t]);
                        } else if x <= last.end {
                            assert(in_range(before[n - 1], x));
                            assert(covers(before, x));
                            let t = choose|t: int| 0 <= t < k && in_range(#[trigger] sorted@.take(k as int)[t], x);
                            assert(taken[t] == sorted@.take(k as int)[t]);
                        } else {
                            assert(in_range(taken[k as int], x));
                        }
                    }
                    if covers(taken, x) {
                        let t = choose|t: int| 0 <= t < taken.len() && in_range(#[trigger] taken[t], x);
                        if t < k {
                            assert(sorted@.take(k as int)[t] == taken[t]);
                            assert(covers(sorted@.take(k as int), x));
                            assert(covers(before, x));
                            let i = choose|i: int| 0 <= i < before.len() && in_range(#[trigger] before[i], x);
                            if i < n - 1 {
                                assert(merged@[i] == before[i]);
                            } else {
                                assert(in_range(merged@[n - 1], x));
                            }
                        } else {
                            assert(in_range(merged@[n - 1], x));
                        }
                    }
                }
                assert forall|x: int| covers(merged@, x) implies x <= merged@.last().end by {
                    let i = choose|i: int| 0 <= i < merged@.len() && in_range(#[trigger] merged@[i], x);
                    if i < n - 1 {
                        assert(merged@[i] == before[i]);
                        assert(covers(before, x));
                    }
                }
            }
        } else {
            merged.push(r);
            proof {
                assert(merged@ =~= before.push(r));
                if n > 0 {
                    assert(before.last().end + 1 < r.start);
                    assert forall|x: int| covers(before, x) implies x < r.start by {}
                }
                assert forall|a: int, b: int| 0 <= a < b < merged@.len() implies #[trigger] merged@[a].end + 1
                    < #[trigger] merged@[b].start by {
                    assert(merged@[a] == before[a]);
                    if b < n {
                        assert(merged@[b] == before[b]);
                    } else {
                        assert(in_range(before[a], before[a].end as int));
                        assert(covers(before, before[a].end as int));
                    }
                }
                assert forall|x: int| covers(merged@, x) <==> covers(taken, x) by {
                    if covers(merged@, x) {
                        let i = choose|i: int| 0 <= i < merged@.len() && in_range(#[trigger] merged@[i], x);
                        if i < n {
                            assert(merged@[i] == before[i]);
                            assert(covers(before, x));
                            let t = choose|t: int| 0 <= t < k && in_range(#[trigger] sorted@.take(k as int)[t], x);
                            assert(taken[t] == sorted@.take(k as int)[t]);
                        } else {
                            assert(in_range(taken[k as int], x));
                        }
                    }
                    if covers(taken, x) {
                        let t = choose|t: int| 0 <= t < taken.len() && in_range(#[trigger] taken[t], x);
                        if t < k {
                            assert(sorted@.take(k as int)[t] == taken[t]);
                            assert(covers(sorted@.take(k as int), x));
                            assert(covers(before, x));
                            let i = choose|i: int| 0 <= i < before.len() && in_range(#[trigger] before[i], x);
                            assert(merged@[i] == before[i]);
                        } else {
                            assert(in_range(merged@[n as int], x));
                        }
                    }
                }
                assert forall|x: int| covers(merged@, x) implies x <= merged@.last().end by {
                    let i = choose|i: int| 0 <= i < merged@.len() && in_range(#[trigger] merged@[i], x);
                    if i < n {
                        assert(merged@[i] == before[i]);
                        assert(covers(before, x));
                    }
                }
            }
        }
        k += 1;
    }
    assert(sorted@.take(k as int) =~= sorted@);
    merged
}

} // verus!

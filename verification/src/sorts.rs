use vstd::prelude::*;
use vstd::seq_lib::group_to_multiset_ensures;
use vstd::multiset::Multiset;

verus! {

// Sorting utilities: every sort promises the same two things, that the
// result is ordered and that it holds exactly the elements it was given.

pub open spec fn sorted_between(s: Seq<i32>, lo: int, hi: int) -> bool {
    forall|p: int, q: int| lo <= p < q < hi ==> s[p] <= s[q]
}

pub open spec fn sorted(s: Seq<i32>) -> bool {
    sorted_between(s, 0, s.len() as int)
}

/// Concatenation turns into multiset union, element by element.
proof fn lemma_add_to_multiset(s1: Seq<i32>, s2: Seq<i32>)
    ensures
        (s1 + s2).to_multiset() == s1.to_multiset().add(s2.to_multiset()),
    decreases s2.len(),
{
    broadcast use group_to_multiset_ensures;

    if s2.len() == 0 {
        assert(s1 + s2 =~= s1);
        assert(s2.to_multiset() =~= Multiset::<i32>::empty());
        assert((s1 + s2).to_multiset() =~= s1.to_multiset().add(s2.to_multiset()));
    } else {
        lemma_add_to_multiset(s1, s2.drop_last());
        assert(s1 + s2 =~= (s1 + s2.drop_last()).push(s2.last()));
        assert(s2 =~= s2.drop_last().push(s2.last()));
        assert((s1 + s2).to_multiset() =~= s1.to_multiset().add(s2.to_multiset()));
    }
}

/// Two same-length sequences that agree outside a window and hold the same
/// elements inside it hold the same elements overall.
proof fn lemma_window_multiset(s1: Seq<i32>, s2: Seq<i32>, lo: int, hi: int)
    requires
        s1.len() == s2.len(),
        0 <= lo <= hi <= s1.len(),
        s1.subrange(lo, hi).to_multiset() == s2.subrange(lo, hi).to_multiset(),
        forall|p: int| 0 <= p < s1.len() && !(lo <= p < hi) ==> s1[p] == s2[p],
    ensures
        s1.to_multiset() == s2.to_multiset(),
{
    let n = s1.len() as int;
    assert(s1 =~= s1.subrange(0, lo) + s1.subrange(lo, hi) + s1.subrange(hi, n));
    assert(s2 =~= s2.subrange(0, lo) + s2.subrange(lo, hi) + s2.subrange(hi, n));
    assert(s1.subrange(0, lo) =~= s2.subrange(0, lo));
    assert(s1.subrange(hi, n) =~= s2.subrange(hi, n));
    lemma_add_to_multiset(s1.subrange(0, lo), s1.subrange(lo, hi));
    lemma_add_to_multiset(s1.subrange(0, lo) + s1.subrange(lo, hi), s1.subrange(hi, n));
    lemma_add_to_multiset(s2.subrange(0, lo), s2.subrange(lo, hi));
    lemma_add_to_multiset(s2.subrange(0, lo) + s2.subrange(lo, hi), s2.subrange(hi, n));
}

/// Exchange two elements, keeping the multiset.
fn swap_cells(vec: &mut Vec<i32>, i: usize, j: usize)
    requires
        i < old(vec)@.len(),
        j < old(vec)@.len(),
    ensures
        final(vec)@ == old(vec)@.update(i as int, old(vec)@[j as int]).update(
            j as int,
            old(vec)@[i as int],
        ),
        final(vec)@.len() == old(vec)@.len(),
        final(vec)@.to_multiset() == old(vec)@.to_multiset(),
{
    broadcast use group_to_multiset_ensures, vstd::seq_lib::to_multiset_update;

    let a = vec[i];
    let b = vec[j];
    vec[i] = b;
    vec[j] = a;
    proof {
        let s = old(vec)@;
        assert(s.update(i as int, b).to_multiset() == s.to_multiset().insert(b).remove(s[i as int]));
        assert(s.update(i as int, b)[j as int] == (if i == j {
            b
        } else {
            s[j as int]
        }));
        assert(final(vec)@.to_multiset() =~= s.to_multiset());
    }
}

// ---------------------------------------------------------------------------
// Quicksort.
// ---------------------------------------------------------------------------

#[verifier::spinoff_prover]
#[verifier::loop_isolation(false)]
fn quicksort_rec(vec: &mut Vec<i32>, start: usize, end: usize)
    requires
        start <= end < old(vec)@.len(),
    ensures
        final(vec)@.len() == old(vec)@.len(),
        final(vec)@.to_multiset() == old(vec)@.to_multiset(),
        sorted_between(final(vec)@, start as int, end + 1),
        forall|p: int|
            0 <= p < old(vec)@.len() && !(start <= p <= end) ==> final(vec)@[p] == old(vec)@[p],
    decreases end - start,
{
    let n = vec.len();
    let pivot = vec[end];
    let mut i = start;
    let mut j = start;

    while i < end
        invariant
            start <= j <= i <= end,
            vec@.len() == old(vec)@.len(),
            vec@.to_multiset() == old(vec)@.to_multiset(),
            vec@[end as int] == pivot,
            forall|p: int| start <= p < j ==> vec@[p] < pivot,
            forall|p: int| j <= p < i ==> vec@[p] >= pivot,
            forall|p: int|
                0 <= p < old(vec)@.len() && !(start <= p <= end) ==> vec@[p] == old(vec)@[p],
        decreases end - i,
    {
        if vec[i] < pivot {
            swap_cells(vec, i, j);
            j += 1;
        }
        i += 1;
    }

    swap_cells(vec, j, end);
    let ghost mid = vec@;
    assert(forall|p: int| start <= p < j ==> mid[p] < pivot);
    assert(forall|p: int| j < p <= end ==> mid[p] >= pivot);
    assert(mid[j as int] == pivot);

    if start + 1 < j {
        quicksort_rec(vec, start, j - 1);
    }
    let ghost after_left = vec@;
    assert(forall|p: int| start <= p < j ==> after_left[p] < pivot) by {
        if start + 1 < j {
            assert(after_left.subrange(start as int, j as int).to_multiset() == mid.subrange(
                start as int,
                j as int,
            ).to_multiset()) by {
                lemma_window_same(mid, after_left, start as int, j as int);
            }
            assert forall|p: int| start <= p < j implies after_left[p] < pivot by {
                lemma_multiset_elem(
                    after_left.subrange(start as int, j as int),
                    mid.subrange(start as int, j as int),
                    p - start,
                );
            }
        }
    }
    if j < end {
        quicksort_rec(vec, j + 1, end);
        assert(forall|p: int| j < p <= end ==> vec@[p] >= pivot) by {
            assert(vec@.subrange(j + 1, end + 1).to_multiset() == after_left.subrange(
                j + 1,
                end + 1,
            ).to_multiset()) by {
                lemma_window_same(after_left, vec@, j + 1, end + 1);
            }
            assert forall|p: int| j < p <= end implies vec@[p] >= pivot by {
                lemma_multiset_elem_ge(
                    vec@.subrange(j + 1, end + 1),
                    after_left.subrange(j + 1, end + 1),
                    p - j - 1,
                    pivot,
                );
            }
        }
    }
}

/// Same length, same elements in a window, unchanged outside it.
proof fn lemma_window_same(s1: Seq<i32>, s2: Seq<i32>, lo: int, hi: int)
    requires
        s1.len() == s2.len(),
        0 <= lo <= hi <= s1.len(),
        s1.to_multiset() == s2.to_multiset(),
        forall|p: int| 0 <= p < s1.len() && !(lo <= p < hi) ==> s1[p] == s2[p],
    ensures
        s2.subrange(lo, hi).to_multiset() == s1.subrange(lo, hi).to_multiset(),
{
    broadcast use group_to_multiset_ensures;

    let n = s1.len() as int;
    assert(s1 =~= s1.subrange(0, lo) + s1.subrange(lo, hi) + s1.subrange(hi, n));
    assert(s2 =~= s2.subrange(0, lo) + s2.subrange(lo, hi) + s2.subrange(hi, n));
    assert(s1.subrange(0, lo) =~= s2.subrange(0, lo));
    assert(s1.subrange(hi, n) =~= s2.subrange(hi, n));
    lemma_add_to_multiset(s1.subrange(0, lo), s1.subrange(lo, hi));
    lemma_add_to_multiset(s1.subrange(0, lo) + s1.subrange(lo, hi), s1.subrange(hi, n));
    lemma_add_to_multiset(s2.subrange(0, lo), s2.subrange(lo, hi));
    lemma_add_to_multiset(s2.subrange(0, lo) + s2.subrange(lo, hi), s2.subrange(hi, n));
    let a = s1.subrange(0, lo).to_multiset();
    let c = s1.subrange(hi, n).to_multiset();
    let m1 = s1.subrange(lo, hi).to_multiset();
    let m2 = s2.subrange(lo, hi).to_multiset();
    assert(a.add(m1).add(c) == a.add(m2).add(c));
    assert forall|x: i32| #[trigger] m1.count(x) == m2.count(x) by {
        assert(a.add(m1).add(c).count(x) == a.count(x) + m1.count(x) + c.count(x));
        assert(a.add(m2).add(c).count(x) == a.count(x) + m2.count(x) + c.count(x));
    }
    assert(m2 =~= m1);
}

/// An element of a sequence whose elements all came from one bounded below
/// stays bounded below.
proof fn lemma_multiset_elem(s1: Seq<i32>, s2: Seq<i32>, p: int)
    requires
        0 <= p < s1.len(),
        s1.to_multiset() == s2.to_multiset(),
        forall|q: int| 0 <= q < s2.len() ==> s2[q] < s1[p] + 1 || s2[q] >= s1[p] + 1,
    ensures
        exists|q: int| 0 <= q < s2.len() && s2[q] == s1[p],
{
    broadcast use group_to_multiset_ensures;

    assert(s1.to_multiset().count(s1[p]) > 0) by {
        assert(s1.contains(s1[p]));
    }
    assert(s2.to_multiset().count(s1[p]) > 0);
    assert(s2.contains(s1[p]));
}

proof fn lemma_multiset_elem_ge(s1: Seq<i32>, s2: Seq<i32>, p: int, bound: i32)
    requires
        0 <= p < s1.len(),
        s1.to_multiset() == s2.to_multiset(),
        forall|q: int| 0 <= q < s2.len() ==> s2[q] >= bound,
    ensures
        s1[p] >= bound,
{
    broadcast use group_to_multiset_ensures;

    assert(s1.contains(s1[p]));
    assert(s1.to_multiset().count(s1[p]) > 0);
    assert(s2.to_multiset().count(s1[p]) > 0);
    assert(s2.contains(s1[p]));
}

proof fn lemma_multiset_elem_le(s1: Seq<i32>, s2: Seq<i32>, p: int, bound: i32)
    requires
        0 <= p < s1.len(),
        s1.to_multiset() == s2.to_multiset(),
        forall|q: int| 0 <= q < s2.len() ==> s2[q] <= bound,
    ensures
        s1[p] <= bound,
{
    broadcast use group_to_multiset_ensures;

    assert(s1.contains(s1[p]));
    assert(s1.to_multiset().count(s1[p]) > 0);
    assert(s2.to_multiset().count(s1[p]) > 0);
    assert(s2.contains(s1[p]));
}

/// Quicksort over the whole vector.
pub fn quicksort(vec: &mut Vec<i32>)
    requires
        old(vec)@.len() > 0,
    ensures
        final(vec)@.len() == old(vec)@.len(),
        final(vec)@.to_multiset() == old(vec)@.to_multiset(),
        sorted(final(vec)@),
{
    let end = vec.len() - 1;
    quicksort_rec(vec, 0, end);
}

// ---------------------------------------------------------------------------
// Heapsort.
// ---------------------------------------------------------------------------

/// The first `len` elements form a max-heap: each node dominates its
/// children at 2i + 1 and 2i + 2.
pub open spec fn heap_upto(s: Seq<i32>, len: int, lo: int) -> bool {
    forall|c: int| 1 <= c < len && (c - 1) / 2 >= lo ==> s[(c - 1) / 2] >= #[trigger] s[c]
}

/// In a max-heap the root dominates everything.
proof fn lemma_heap_root_max(s: Seq<i32>, len: int, c: int)
    requires
        heap_upto(s, len, 0),
        0 <= c < len <= s.len(),
    ensures
        s[0] >= s[c],
    decreases c,
{
    if c > 0 {
        let parent = (c - 1) / 2;
        assert(0 <= parent < c) by (nonlinear_arith)
            requires
                c >= 1,
                parent == (c - 1) / 2,
        ;
        assert(s[parent] >= s[c]);
        lemma_heap_root_max(s, len, parent);
    }
}

/// Sift the value at `i` down until both children are no larger, restoring
/// the heap property for every node at or below `i`.
#[verifier::spinoff_prover]
#[verifier::loop_isolation(false)]
#[verifier::rlimit(100)]
fn swap_down(vec: &mut Vec<i32>, i: usize, len: usize)
    requires
        len <= old(vec)@.len(),
        i < old(vec)@.len(),
        len < 2 || i < len,
        heap_upto(old(vec)@, len as int, i + 1),
    ensures
        final(vec)@.len() == old(vec)@.len(),
        final(vec)@.to_multiset() == old(vec)@.to_multiset(),
        heap_upto(final(vec)@, len as int, i as int),
        forall|p: int| 0 <= p < old(vec)@.len() && !(i <= p < len) ==> final(vec)@[p] == old(vec)@[p],
{
    let start = i;
    let mut i = i;
    if len < 2 {
        return ;
    }
    let min_lt_two_children = (len - 1) / 2;
    let mut done = false;

    while !done && i < min_lt_two_children
        invariant
            start <= i < len,
            vec@.len() == old(vec)@.len(),
            vec@.to_multiset() == old(vec)@.to_multiset(),
            done ==> heap_upto(vec@, len as int, start as int),
            !done ==> (forall|c: int|
                1 <= c < len && (c - 1) / 2 >= start && (c - 1) / 2 != i ==> vec@[(c - 1) / 2]
                    >= #[trigger] vec@[c]),
            !done && i > start ==> (2 * i + 1 < len ==> vec@[(i - 1) / 2] >= vec@[2 * i + 1]),
            !done && i > start ==> (2 * i + 2 < len ==> vec@[(i - 1) / 2] >= vec@[2 * i + 2]),
            !done && i > start ==> vec@[(i - 1) / 2] >= vec@[i as int],
            forall|p: int|
                0 <= p < old(vec)@.len() && !(start <= p < len) ==> vec@[p] == old(vec)@[p],
        decreases len - i, if done {
            0int
        } else {
            1int
        },
    {
        proof {
            assert(2 * i + 2 < len) by (nonlinear_arith)
                requires
                    i < (len - 1) / 2,
                    len >= 2,
            ;
        }
        let mut child = 2 * i + 1;
        if vec[child] < vec[child + 1] {
            child += 1;
        }
        if vec[i] < vec[child] {
            let ghost pre = vec@;
            swap_cells(vec, i, child);
            proof {
                assert forall|c: int|
                    1 <= c < len && (c - 1) / 2 >= start && (c - 1) / 2 != child implies vec@[(c
                    - 1) / 2] >= #[trigger] vec@[c] by {
                    let par = (c - 1) / 2;
                    assert(par == i <==> (c == 2 * i + 1 || c == 2 * i + 2)) by (nonlinear_arith)
                        requires
                            c >= 1,
                            par == (c - 1) / 2,
                    ;
                    assert(0 <= par < c < len) by (nonlinear_arith)
                        requires
                            c >= 1,
                            c < len,
                            par == (c - 1) / 2,
                    ;
                }
                assert((child as int - 1) / 2 == i) by (nonlinear_arith)
                    requires
                        child == 2 * i + 1 || child == 2 * i + 2,
                ;
                assert(2 * child + 1 < len ==> vec@[(child as int - 1) / 2] >= vec@[2 * child
                    + 1]) by {
                    if 2 * child + 1 < len {
                        assert((2 * child + 1 - 1) / 2 == child) by (nonlinear_arith);
                        assert(pre[2 * child + 1] <= pre[child as int]);
                    }
                }
                assert(2 * child + 2 < len ==> vec@[(child as int - 1) / 2] >= vec@[2 * child
                    + 2]) by {
                    if 2 * child + 2 < len {
                        assert((2 * child + 2 - 1) / 2 == child) by (nonlinear_arith);
                        assert(pre[2 * child + 2] <= pre[child as int]);
                    }
                }
            }
            i = child;
        } else {
            proof {
                assert forall|c: int|
                    1 <= c < len && (c - 1) / 2 >= start implies vec@[(c - 1) / 2]
                    >= #[trigger] vec@[c] by {
                    let par = (c - 1) / 2;
                    assert(par == i <==> (c == 2 * i + 1 || c == 2 * i + 2)) by (nonlinear_arith)
                        requires
                            c >= 1,
                            par == (c - 1) / 2,
                    ;
                }
            }
            done = true;
        }
    }
    if done {
        return ;
    }
    proof {
        assert(i >= min_lt_two_children);
        assert(2 * i + 2 >= len) by (nonlinear_arith)
            requires
                i >= (len - 1) / 2,
        ;
    }
    if len % 2 == 0 && i == min_lt_two_children && vec[i] < vec[2 * i + 1] {
        proof {
            assert(2 * i + 1 < len && 2 * i + 2 >= len) by (nonlinear_arith)
                requires
                    len % 2 == 0,
                    len >= 2,
                    i == (len - 1) / 2,
                    len == len / 2 * 2 + len % 2,
            ;
            vstd::arithmetic::div_mod::lemma_fundamental_div_mod(len as int, 2);
        }
        let ghost pre = vec@;
        swap_cells(vec, i, 2 * i + 1);
        proof {
            assert forall|c: int|
                1 <= c < len && (c - 1) / 2 >= start implies vec@[(c - 1) / 2]
                >= #[trigger] vec@[c] by {
                let par = (c - 1) / 2;
                assert(par == i <==> c == 2 * i + 1) by (nonlinear_arith)
                    requires
                        c >= 1,
                        c < len,
                        2 * i + 1 < len,
                        2 * i + 2 >= len,
                        par == (c - 1) / 2,
                ;
                assert(par == 2 * i + 1 ==> c >= 2 * (2 * i + 1) + 1) by (nonlinear_arith)
                    requires
                        c >= 1,
                        par == (c - 1) / 2,
                ;
                assert(0 <= par < c < len) by (nonlinear_arith)
                    requires
                        c >= 1,
                        c < len,
                        par == (c - 1) / 2,
                ;
            }
        }
    } else {
        proof {
            if i >= min_lt_two_children && !(len % 2 == 0 && i == min_lt_two_children) {
                assert forall|c: int|
                    1 <= c < len && (c - 1) / 2 >= start implies vec@[(c - 1) / 2]
                    >= #[trigger] vec@[c] by {
                    let par = (c - 1) / 2;
                    assert(par != i) by (nonlinear_arith)
                        requires
                            c >= 1,
                            c < len,
                            i >= (len - 1) / 2,
                            par == (c - 1) / 2,
                            len % 2 != 0 || i != (len - 1) / 2,
                            len >= 2,
                            len == len / 2 * 2 + len % 2,
                            len - 1 == (len - 1) / 2 * 2 + (len - 1) % 2,
                    ;
                }
                vstd::arithmetic::div_mod::lemma_fundamental_div_mod(len as int, 2);
                vstd::arithmetic::div_mod::lemma_fundamental_div_mod(len as int - 1, 2);
            }
        }
    }
}

/// Build a max-heap bottom-up.
#[verifier::loop_isolation(false)]
fn heapify(vec: &mut Vec<i32>)
    ensures
        final(vec)@.len() == old(vec)@.len(),
        final(vec)@.to_multiset() == old(vec)@.to_multiset(),
        heap_upto(final(vec)@, old(vec)@.len() as int, 0),
{
    let len = vec.len();
    let mut i = len / 2;
    proof {
        assert forall|c: int|
            1 <= c < len && (c - 1) / 2 >= len / 2 implies vec@[(c - 1) / 2]
            >= #[trigger] vec@[c] by {
            assert(c >= 2 * (len / 2) + 1) by (nonlinear_arith)
                requires
                    c >= 1,
                    (c - 1) / 2 >= len / 2,
            ;
            assert(c >= len) by (nonlinear_arith)
                requires
                    c >= 2 * (len / 2) + 1,
                    len == len / 2 * 2 + len % 2,
                    0 <= len % 2 < 2,
            ;
            vstd::arithmetic::div_mod::lemma_fundamental_div_mod(len as int, 2);
        }
    }
    while i > 0
        invariant
            i <= len,
            vec@.len() == old(vec)@.len(),
            vec@.to_multiset() == old(vec)@.to_multiset(),
            heap_upto(vec@, len as int, i as int),
        decreases i,
    {
        i -= 1;
        if i < len {
            swap_down(vec, i, len);
        }
    }
}

/// Heapsort: build a max-heap, then repeatedly move the root behind the
/// shrinking heap region.
#[verifier::rlimit(100)]
pub fn heapsort(vec: &mut Vec<i32>)
    ensures
        final(vec)@.len() == old(vec)@.len(),
        final(vec)@.to_multiset() == old(vec)@.to_multiset(),
        sorted(final(vec)@),
{
    heapify(vec);
    let n = vec.len();
    let mut end = n;

    while end > 0
        invariant
            end <= n,
            n == vec@.len() == old(vec)@.len(),
            vec@.to_multiset() == old(vec)@.to_multiset(),
            heap_upto(vec@, end as int, 0),
            sorted_between(vec@, end as int, n as int),
            forall|p: int, q: int| 0 <= p < end <= q < n ==> #[trigger] vec@[p] <= #[trigger] vec@[q],
        decreases end,
    {
        end -= 1;
        let ghost pre = vec@;
        proof {
            lemma_root_dominates(pre, end as int);
        }
        swap_cells(vec, 0, end);
        proof {
            lemma_pairs_survive_swap(pre, vec@, end as int);
        }
        let ghost pre2 = vec@;
        swap_down(vec, 0, end);
        proof {
            lemma_extract_step(pre, pre2, vec@, end as int, n as int);
        }
    }
}

#[verifier::spinoff_prover]
proof fn lemma_root_dominates(pre: Seq<i32>, end: int)
    requires
        0 <= end < pre.len(),
        heap_upto(pre, end + 1, 0),
    ensures
        forall|c: int| 0 <= c <= end ==> pre[0] >= #[trigger] pre[c],
{
    assert forall|c: int| 0 <= c <= end implies pre[0] >= #[trigger] pre[c] by {
        lemma_heap_root_max(pre, end + 1, c);
    }
}

/// Swapping the root behind the region leaves every pair with an inner
/// parent untouched.
#[verifier::spinoff_prover]
proof fn lemma_pairs_survive_swap(pre: Seq<i32>, cur: Seq<i32>, end: int)
    requires
        0 <= end < pre.len(),
        cur == pre.update(0, pre[end]).update(end, pre[0]),
        heap_upto(pre, end + 1, 0),
    ensures
        heap_upto(cur, end, 1),
{
    assert forall|c: int| 1 <= c < end && (c - 1) / 2 >= 1 implies cur[(c - 1) / 2]
        >= #[trigger] cur[c] by {
        let par = (c - 1) / 2;
        assert(1 <= par < c < end) by (nonlinear_arith)
            requires
                c >= 1,
                c < end,
                par == (c - 1) / 2,
                par >= 1,
        ;
    }
}

/// One extraction round of heapsort: after the old root moves behind the
/// heap region and the new root sinks, the region's elements still sit
/// below everything behind it, and the tail stays sorted.
#[verifier::spinoff_prover]
#[verifier::rlimit(100)]
proof fn lemma_extract_step(pre: Seq<i32>, pre2: Seq<i32>, cur: Seq<i32>, end: int, n: int)
    requires
        0 <= end < n,
        n == pre.len() == pre2.len() == cur.len(),
        pre2 == pre.update(0, pre[end]).update(end, pre[0]),
        forall|c: int| 0 <= c <= end ==> pre[0] >= #[trigger] pre[c],
        sorted_between(pre, end + 1, n),
        forall|p: int, q: int|
            0 <= p < end + 1 <= q < n ==> #[trigger] pre[p] <= #[trigger] pre[q],
        cur.to_multiset() == pre2.to_multiset(),
        forall|p: int| 0 <= p < n && !(0 <= p < end) ==> cur[p] == pre2[p],
    ensures
        forall|p: int, q: int| 0 <= p < end <= q < n ==> #[trigger] cur[p] <= #[trigger] cur[q],
        sorted_between(cur, end, n),
{
    assert forall|p: int, q: int|
        0 <= p < end <= q < n implies #[trigger] cur[p] <= #[trigger] cur[q] by {
        lemma_window_same(pre2, cur, 0, end);
        assert forall|r: int| 0 <= r < end implies #[trigger] pre2[r] <= cur[q] by {
            assert(cur[q] == pre2[q]);
            if q == end {
                assert(pre2[q] == pre[0]);
            } else {
                assert(pre2[q] == pre[q]);
            }
        }
        lemma_multiset_elem_le(cur.subrange(0, end), pre2.subrange(0, end), p, cur[q]);
    }
    assert forall|p: int, q: int| end <= p < q < n implies cur[p] <= cur[q] by {
        assert(cur[p] == pre2[p] && cur[q] == pre2[q]);
        if p == end {
            assert(pre2[p] == pre[0]);
        }
    }
}

/// Sort the window [start, end] by repeated insertion.
#[verifier::spinoff_prover]
#[verifier::loop_isolation(false)]
fn insertion_sort(vec: &mut Vec<i32>, start: usize, end: usize)
    requires
        start <= end < old(vec)@.len(),
    ensures
        final(vec)@.len() == old(vec)@.len(),
        final(vec)@.to_multiset() == old(vec)@.to_multiset(),
        sorted_between(final(vec)@, start as int, end + 1),
        forall|p: int|
            0 <= p < old(vec)@.len() && !(start <= p <= end) ==> final(vec)@[p] == old(vec)@[p],
{
    let n = vec.len();
    let mut i = start + 1;
    while i <= end
        invariant
            start + 1 <= i <= end + 1,
            vec@.len() == old(vec)@.len(),
            vec@.to_multiset() == old(vec)@.to_multiset(),
            sorted_between(vec@, start as int, i as int),
            forall|p: int|
                0 <= p < old(vec)@.len() && !(start <= p <= end) ==> vec@[p] == old(vec)@[p],
        decreases end + 1 - i,
    {
        let mut j = i;
        while j > start && vec[j] < vec[j - 1]
            invariant
                start <= j <= i <= end,
                vec@.len() == old(vec)@.len(),
                vec@.to_multiset() == old(vec)@.to_multiset(),
                forall|p: int, q: int|
                    start <= p < q <= i && q != j ==> vec@[p] <= vec@[q],
                forall|q: int| j < q <= i ==> vec@[j as int] <= vec@[q],
                forall|p: int|
                    0 <= p < old(vec)@.len() && !(start <= p <= end) ==> vec@[p] == old(vec)@[p],
            decreases j,
        {
            swap_cells(vec, j, j - 1);
            j -= 1;
        }
        i += 1;
    }
}

/// Merge the two sorted halves of the window [start, end]; the split point
/// is the middle, rounded up.
#[verifier::rlimit(100)]
#[verifier::spinoff_prover]
#[verifier::loop_isolation(false)]
fn merge(vec: &mut Vec<i32>, start: usize, end: usize)
    requires
        start <= end < old(vec)@.len(),
        sorted_between(old(vec)@, start as int, start + (end - start + 2) / 2),
        sorted_between(old(vec)@, start + (end - start + 2) / 2, end + 1),
    ensures
        final(vec)@.len() == old(vec)@.len(),
        final(vec)@.to_multiset() == old(vec)@.to_multiset(),
        sorted_between(final(vec)@, start as int, end + 1),
        forall|p: int|
            0 <= p < old(vec)@.len() && !(start <= p <= end) ==> final(vec)@[p] == old(vec)@[p],
{
    broadcast use group_to_multiset_ensures;

    let n = vec.len();
    let mut copy: Vec<i32> = Vec::new();
    let mut t = start;
    while t <= end
        invariant
            start <= t <= end + 1,
            copy@ =~= vec@.subrange(start as int, t as int),
            vec@ == old(vec)@,
        decreases end + 1 - t,
    {
        let x = vec[t];
        copy.push(x);
        proof {
            assert(copy@ =~= vec@.subrange(start as int, t + 1));
        }
        t += 1;
    }
    let len = copy.len();
    let mid = len / 2 + len % 2;
    proof {
        assert(mid == (len + 1) / 2) by (nonlinear_arith)
            requires
                mid == len / 2 + len % 2,
                len >= 0,
                len == len / 2 * 2 + len % 2,
        ;
        assert(copy@ =~= old(vec)@.subrange(start as int, end + 1));
        assert(sorted_between(copy@, 0, mid as int));
        assert(sorted_between(copy@, mid as int, len as int));
    }

    let mut left: usize = 0;
    let mut right: usize = mid;
    let mut k = start;

    while left < mid && right < len
        invariant
            left <= mid <= right <= len,
            k == start + left + (right - mid),
            k <= end + 1,
            vec@.len() == old(vec)@.len(),
            copy@.len() == len == end + 1 - start,
            mid == (len + 1) / 2,
            copy@ == old(vec)@.subrange(start as int, end + 1),
            sorted_between(copy@, 0, mid as int),
            sorted_between(copy@, mid as int, len as int),
            sorted_between(vec@, start as int, k as int),
            vec@.subrange(start as int, k as int).to_multiset() == (copy@.subrange(
                0,
                left as int,
            ) + copy@.subrange(mid as int, right as int)).to_multiset(),
            forall|p: int|
                start <= p < k && left < mid ==> vec@[p] <= copy@[left as int],
            forall|p: int|
                start <= p < k && right < len ==> vec@[p] <= copy@[right as int],
            forall|p: int|
                0 <= p < old(vec)@.len() && !(start <= p < k) ==> vec@[p] == old(vec)@[p],
        decreases len - left - (right - mid),
    {
        let ghost pre = vec@;
        let take_left = copy[left] < copy[right];
        let val = if take_left {
            copy[left]
        } else {
            copy[right]
        };
        vec[k] = val;
        proof {
            let pa = copy@.subrange(0, left as int);
            let pb = copy@.subrange(mid as int, right as int);
            lemma_add_to_multiset(pa, pb);
            assert(vec@.subrange(start as int, k as int) =~= pre.subrange(start as int, k as int));
            assert(vec@.subrange(start as int, k + 1) =~= vec@.subrange(
                start as int,
                k as int,
            ).push(val));
            if take_left {
                assert(copy@.subrange(0, left + 1) =~= pa.push(val));
                lemma_add_to_multiset(copy@.subrange(0, left + 1), pb);
                assert(copy@.subrange(0, left + 1).to_multiset() =~= pa.to_multiset().insert(val));
                assert((copy@.subrange(0, left + 1) + pb).to_multiset() =~= (pa
                    + pb).to_multiset().insert(val));
            } else {
                assert(copy@.subrange(mid as int, right + 1) =~= pb.push(val));
                lemma_add_to_multiset(pa, copy@.subrange(mid as int, right + 1));
                assert(copy@.subrange(mid as int, right + 1).to_multiset() =~= pb.to_multiset()
                    .insert(val));
                assert((pa + copy@.subrange(mid as int, right + 1)).to_multiset() =~= (pa
                    + pb).to_multiset().insert(val));
            }
        }
        if take_left {
            left += 1;
        } else {
            right += 1;
        }
        k += 1;
    }

    while left < mid
        invariant
            left <= mid <= right <= len,
            k == start + left + (right - mid),
            k <= end + 1,
            vec@.len() == old(vec)@.len(),
            copy@.len() == len == end + 1 - start,
            mid == (len + 1) / 2,
            copy@ == old(vec)@.subrange(start as int, end + 1),
            sorted_between(copy@, 0, mid as int),
            sorted_between(copy@, mid as int, len as int),
            sorted_between(vec@, start as int, k as int),
            left < mid ==> right == len,
            vec@.subrange(start as int, k as int).to_multiset() == (copy@.subrange(
                0,
                left as int,
            ) + copy@.subrange(mid as int, right as int)).to_multiset(),
            forall|p: int|
                start <= p < k && left < mid ==> vec@[p] <= copy@[left as int],
            forall|p: int|
                start <= p < k && right < len ==> vec@[p] <= copy@[right as int],
            forall|p: int|
                0 <= p < old(vec)@.len() && !(start <= p < k) ==> vec@[p] == old(vec)@[p],
        decreases mid - left,
    {
        let ghost pre = vec@;
        let val = copy[left];
        vec[k] = val;
        proof {
            let pa = copy@.subrange(0, left as int);
            let pb = copy@.subrange(mid as int, right as int);
            lemma_add_to_multiset(pa, pb);
            assert(vec@.subrange(start as int, k as int) =~= pre.subrange(start as int, k as int));
            assert(vec@.subrange(start as int, k + 1) =~= vec@.subrange(
                start as int,
                k as int,
            ).push(val));
            assert(copy@.subrange(0, left + 1) =~= pa.push(val));
            lemma_add_to_multiset(copy@.subrange(0, left + 1), pb);
            assert(copy@.subrange(0, left + 1).to_multiset() =~= pa.to_multiset().insert(val));
            assert((copy@.subrange(0, left + 1) + pb).to_multiset() =~= (pa
                + pb).to_multiset().insert(val));
        }
        left += 1;
        k += 1;
    }

    while right < len
        invariant
            left == mid,
            mid <= right <= len,
            k == start + left + (right - mid),
            k <= end + 1,
            vec@.len() == old(vec)@.len(),
            copy@.len() == len == end + 1 - start,
            mid == (len + 1) / 2,
            copy@ == old(vec)@.subrange(start as int, end + 1),
            sorted_between(copy@, mid as int, len as int),
            sorted_between(vec@, start as int, k as int),
            vec@.subrange(start as int, k as int).to_multiset() == (copy@.subrange(
                0,
                left as int,
            ) + copy@.subrange(mid as int, right as int)).to_multiset(),
            forall|p: int|
                start <= p < k && right < len ==> vec@[p] <= copy@[right as int],
            forall|p: int|
                0 <= p < old(vec)@.len() && !(start <= p < k) ==> vec@[p] == old(vec)@[p],
        decreases len - right,
    {
        let ghost pre = vec@;
        let val = copy[right];
        vec[k] = val;
        proof {
            let pa = copy@.subrange(0, left as int);
            let pb = copy@.subrange(mid as int, right as int);
            lemma_add_to_multiset(pa, pb);
            assert(vec@.subrange(start as int, k as int) =~= pre.subrange(start as int, k as int));
            assert(vec@.subrange(start as int, k + 1) =~= vec@.subrange(
                start as int,
                k as int,
            ).push(val));
            assert(copy@.subrange(mid as int, right + 1) =~= pb.push(val));
            lemma_add_to_multiset(pa, copy@.subrange(mid as int, right + 1));
            assert(copy@.subrange(mid as int, right + 1).to_multiset() =~= pb.to_multiset().insert(
                val,
            ));
            assert((pa + copy@.subrange(mid as int, right + 1)).to_multiset() =~= (pa
                + pb).to_multiset().insert(val));
        }
        right += 1;
        k += 1;
    }

    proof {
        assert(k == end + 1);
        assert(copy@.subrange(0, mid as int) + copy@.subrange(mid as int, len as int) =~= copy@);
        assert(vec@.subrange(start as int, end + 1).to_multiset() == copy@.to_multiset());
        lemma_window_multiset(vec@, old(vec)@, start as int, end + 1);
    }
}

fn merge_sort_rec(vec: &mut Vec<i32>, start: usize, end: usize)
    requires
        start <= end < old(vec)@.len(),
    ensures
        final(vec)@.len() == old(vec)@.len(),
        final(vec)@.to_multiset() == old(vec)@.to_multiset(),
        sorted_between(final(vec)@, start as int, end + 1),
        forall|p: int|
            0 <= p < old(vec)@.len() && !(start <= p <= end) ==> final(vec)@[p] == old(vec)@[p],
    decreases end - start,
{
    if start == end {
        return ;
    }
    let mid = start + (end - start) / 2;
    merge_sort_rec(vec, start, mid);
    let ghost after_left = vec@;
    merge_sort_rec(vec, mid + 1, end);
    proof {
        assert(sorted_between(vec@, start as int, mid + 1)) by {
            assert(forall|p: int| start <= p <= mid ==> vec@[p] == after_left[p]);
        }
        assert(mid + 1 == start + (end - start + 2) / 2) by (nonlinear_arith)
            requires
                start <= end,
                mid == start + (end - start) / 2,
        ;
    }
    merge(vec, start, end);
}

/// Merge sort over the whole vector.
pub fn mergesort(vec: &mut Vec<i32>)
    requires
        old(vec)@.len() > 0,
    ensures
        final(vec)@.len() == old(vec)@.len(),
        final(vec)@.to_multiset() == old(vec)@.to_multiset(),
        sorted(final(vec)@),
{
    let end = vec.len() - 1;
    merge_sort_rec(vec, 0, end);
}

const THRESHOLD: usize = 64;

fn timsort_rec(vec: &mut Vec<i32>, start: usize, end: usize)
    requires
        start <= end < old(vec)@.len(),
    ensures
        final(vec)@.len() == old(vec)@.len(),
        final(vec)@.to_multiset() == old(vec)@.to_multiset(),
        sorted_between(final(vec)@, start as int, end + 1),
        forall|p: int|
            0 <= p < old(vec)@.len() && !(start <= p <= end) ==> final(vec)@[p] == old(vec)@[p],
    decreases end - start,
{
    if end - start < THRESHOLD {
        insertion_sort(vec, start, end);
        return ;
    }
    let mid = start + (end - start) / 2;
    timsort_rec(vec, start, mid);
    let ghost after_left = vec@;
    timsort_rec(vec, mid + 1, end);
    proof {
        assert(sorted_between(vec@, start as int, mid + 1)) by {
            assert(forall|p: int| start <= p <= mid ==> vec@[p] == after_left[p]);
        }
        assert(mid + 1 == start + (end - start + 2) / 2) by (nonlinear_arith)
            requires
                start <= end,
                mid == start + (end - start) / 2,
        ;
    }
    merge(vec, start, end);
}

/// Insertion sort below a size threshold, merging above it.
pub fn timsort(vec: &mut Vec<i32>)
    requires
        old(vec)@.len() > 0,
    ensures
        final(vec)@.len() == old(vec)@.len(),
        final(vec)@.to_multiset() == old(vec)@.to_multiset(),
        sorted(final(vec)@),
{
    let end = vec.len() - 1;
    timsort_rec(vec, 0, end);
}

} // verus!

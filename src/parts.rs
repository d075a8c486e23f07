//! The parts a page limit cuts one chapter into.
use vstd::prelude::*;

use crate::chapters::{
    after_heading, after_limit, cleaned, close_if_long, detected, heading_from, part_title, run,
    step, ChapterView, DetectConfig, DetectState,
};
use crate::text::{lines_of, trim};
use vstd::arithmetic::div_mod::{
    lemma_fundamental_div_mod, lemma_fundamental_div_mod_converse, lemma_mod_pos_bound,
};

verus! {

/// The heading a page opens with, trimmed, if it has one among its first lines.
pub open spec fn heading_title(c: DetectConfig, page: Seq<char>) -> Option<Seq<char>> {
    let ls = lines_of(cleaned(c.clean, page));
    match heading_from(c.pattern, ls, 0) {
        Some(j) => Some(trim(ls[j])),
        None => None,
    }
}

/// After `k` pages of a chapter titled `t` that began on page 0: the parts
/// cut so far, each `m` pages long, and the part being accumulated.
pub open spec fn parts_so_far(c: DetectConfig, t: Seq<char>, k: int, s: DetectState) -> bool {
    let m = c.max_pages as int;
    let q = k / m;
    &&& s.open matches Some(o) && o.title == t && o.start == q * m && o.part == (if q == 0 {
        0nat
    } else {
        (q + 1) as nat
    })
    &&& s.done.len() == q
    &&& forall|i: int|
        0 <= i < q ==> (#[trigger] s.done[i]).title == part_title(t, (i + 1) as nat)
            && s.done[i].page_start == i * m && s.done[i].page_end == (i + 1) * m - 1
}

proof fn lemma_next_div(k: int, m: int)
    requires
        k >= 0,
        m > 0,
    ensures
        k == (k / m) * m + k % m,
        0 <= k % m < m,
        k % m == m - 1 ==> (k + 1) / m == k / m + 1,
        k % m != m - 1 ==> (k + 1) / m == k / m,
{
    lemma_fundamental_div_mod(k, m);
    lemma_mod_pos_bound(k, m);
    let q = k / m;
    let r = k % m;
    assert(m * q == q * m) by (nonlinear_arith);
    if r == m - 1 {
        assert(k + 1 == (q + 1) * m + 0) by (nonlinear_arith)
            requires
                k == q * m + r,
                r == m - 1,
        ;
        lemma_fundamental_div_mod_converse(k + 1, m, q + 1, 0);
    } else {
        lemma_fundamental_div_mod_converse(k + 1, m, q, r + 1);
    }
}

proof fn lemma_parts_run(c: DetectConfig, pages: Seq<Seq<char>>, t: Seq<char>, k: int)
    requires
        c.max_pages > 0,
        c.min_len == 0,
        1 <= k <= pages.len(),
        heading_title(c, pages[0]) == Some(t),
        forall|i: int|
            1 <= i < pages.len() ==> heading_from(
                c.pattern,
                lines_of(cleaned(c.clean, #[trigger] pages[i])),
                0,
            ) is None,
    ensures
        parts_so_far(c, t, k, run(c, pages.subrange(0, k))),
    decreases k,
{
    let m = c.max_pages as int;
    let sub = pages.subrange(0, k);
    assert(sub.drop_last() =~= pages.subrange(0, k - 1));
    assert(sub.last() == pages[k - 1]);
    if k == 1 {
        let empty = DetectState { open: None, done: Seq::<ChapterView>::empty() };
        assert(pages.subrange(0, 0) =~= Seq::<Seq<char>>::empty());
        assert(run(c, pages.subrange(0, 0)) == empty);
        let s1 = after_heading(c, empty, 0, pages[0]);
        assert(s1.open matches Some(o) && o.title == t && o.start == 0 && o.part == 0);
        assert(s1.done.len() == 0);
        lemma_next_div(0, m);
        assert(0int / m == 0);
        if m == 1 {
            assert(1int / 1 == 1);
        } else {
            lemma_fundamental_div_mod_converse(1, m, 0, 1);
        }
    } else {
        lemma_parts_run(c, pages, t, k - 1);
        let s0 = run(c, pages.subrange(0, k - 1));
        let i = k - 1;
        lemma_next_div(i, m);
        let q = i / m;
        let s1 = after_heading(c, s0, i, pages[i]);
        assert(s1.done == s0.done);
        assert(s1.open matches Some(o) && o.title == t && o.start == q * m && o.part == s0.open->0.part);
        let s2 = after_limit(c, s1, i);
        assert(s2 == step(c, s0, i, pages[i]));
        if i % m == m - 1 {
            assert(i + 1 - q * m >= m);
            assert((q + 1) * m == q * m + m) by (nonlinear_arith);
            let cut = s2.done[q];
            assert(s2.done == s1.done.push(cut));
            assert(cut.page_start == q * m && cut.page_end == (q + 1) * m - 1);
            assert(forall|j: int| 0 <= j < q ==> s2.done[j] == s0.done[j]);
        } else {
            assert(i + 1 - q * m < m);
            assert(s2 == s1);
        }
    }
}

/// With a page limit `m`, no minimum length, a heading titled `t` on page 0
/// and no other heading, the chapters are the parts of that one chapter:
/// one for every `m` pages and one for what is left, each `m` pages long but
/// the last, one after the other from page 0 to the last page, titled
/// `t (Part 1)`, `t (Part 2)`, ... (just `t` if it was never cut).
pub proof fn lemma_part_chapters(c: DetectConfig, pages: Seq<Seq<char>>, t: Seq<char>)
    requires
        c.max_pages > 0,
        c.min_len == 0,
        pages.len() > 0,
        heading_title(c, pages[0]) == Some(t),
        forall|i: int|
            1 <= i < pages.len() ==> heading_from(
                c.pattern,
                lines_of(cleaned(c.clean, #[trigger] pages[i])),
                0,
            ) is None,
    ensures
        ({
            let r = detected(c, pages);
            let m = c.max_pages as int;
            let n = pages.len() as int;
            &&& r.len() == n / m + (if n % m == 0 { 0int } else { 1int })
            &&& forall|i: int|
                0 <= i < r.len() ==> (#[trigger] r[i]).page_start == i * m && r[i].page_end == (if (i
                    + 1) * m < n {
                    (i + 1) * m
                } else {
                    n
                }) - 1 && r[i].title == (if n < m {
                    t
                } else {
                    part_title(t, (i + 1) as nat)
                })
        }),
{
    let m = c.max_pages as int;
    let n = pages.len() as int;
    lemma_parts_run(c, pages, t, n);
    assert(pages.subrange(0, n) =~= pages);
    lemma_next_div(n, m);
    let q = n / m;
    let s = run(c, pages);
    let o = s.open->0;
    let done = close_if_long(c, s, n - 1);
    assert(q * m <= n);
    if n % m == 0 {
        assert(o.start == n);
        assert(done == s.done);
        assert(q >= 1) by (nonlinear_arith)
            requires
                n == q * m,
                n > 0,
                m > 0,
        ;
    } else {
        assert(o.start <= n - 1);
        assert(done == s.done.push(done[q]));
        assert(forall|j: int| 0 <= j < q ==> done[j] == s.done[j]);
    }
    assert(done.len() > 0);
    assert(detected(c, pages) == done);
    assert(n < m <==> q == 0) by {
        if q >= 1 {
            assert(q * m >= m) by (nonlinear_arith)
                requires
                    q >= 1,
                    m > 0,
            ;
        }
        if n >= m {
            lemma_fundamental_div_mod_converse(n, m, q, n % m);
            assert(q >= 1) by (nonlinear_arith)
                requires
                    n == q * m + n % m,
                    n % m < m,
                    n >= m,
                    m > 0,
            ;
        }
    }
    assert forall|i: int| 0 <= i < done.len() implies (#[trigger] done[i]).page_start == i * m
        && done[i].page_end == (if (i + 1) * m < n {
        (i + 1) * m
    } else {
        n
    }) - 1 && done[i].title == (if n < m {
        t
    } else {
        part_title(t, (i + 1) as nat)
    }) by {
        if i < q {
            assert((i + 1) * m <= q * m) by (nonlinear_arith)
                requires
                    i < q,
                    m > 0,
            ;
        } else {
            assert((i + 1) * m > n) by (nonlinear_arith)
                requires
                    i == q,
                    n == q * m + n % m,
                    n % m < m,
            ;
        }
    }
}

} // verus!

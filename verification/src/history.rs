//! What holds of the frame allocator after any sequence of calls.
//!
//! A sequence of calls is replayed on a table with every page free. Beside the
//! table the replay keeps the book of the live allocations: where each one
//! starts and how many pages were asked for. The laws at the end tie the table
//! to that book.

use vstd::prelude::*;
use crate::mem::{
    dump, fill, fits_at, is_first_fit, is_run_start, lemma_allocate_takes_pages, lemma_clear_run,
    lemma_deallocate_returns_pages, lemma_dump_counts_occupied_pages, lemma_first_fit_exists,
    lemma_live_runs_disjoint, lemma_mark_run, MAX_PAGE, occupied_pages, run_intact, runs_wf,
    total_pages,
};

verus! {

/// One call on the allocator.
pub enum Call {
    /// A request for `pages` pages, at least one.
    Allocate { pages: int },
    /// The release of the run that starts at slot `index`.
    Deallocate { index: int },
}

/// The first slot at which a request for `n` pages fits.
pub open spec fn first_fit(s: Seq<usize>, n: int) -> int {
    choose|i: int| is_first_fit(s, i, n)
}

/// The call can be served on the table `s`: a request fits somewhere, a
/// release names the start of a live run.
pub open spec fn can_serve(s: Seq<usize>, call: Call) -> bool {
    match call {
        Call::Allocate { pages } => 1 <= pages <= usize::MAX && exists|i: int|
            fits_at(s, i, pages),
        Call::Deallocate { index } => is_run_start(s, index),
    }
}

/// The table after the call was served on the table `s`.
pub open spec fn table_after(s: Seq<usize>, call: Call) -> Seq<usize> {
    match call {
        Call::Allocate { pages } => fill(s, first_fit(s, pages), pages, pages as usize),
        Call::Deallocate { index } => fill(s, index, s[index] as int, 0),
    }
}

/// The table after all of `calls` were served, one after the other, on a
/// table with every page free.
pub open spec fn replay(calls: Seq<Call>) -> Seq<usize>
    decreases calls.len(),
{
    if calls.len() == 0 {
        Seq::new(MAX_PAGE as nat, |k: int| 0usize)
    } else {
        table_after(replay(calls.drop_last()), calls.last())
    }
}

/// Each of `calls` can be served when its turn comes.
pub open spec fn all_served(calls: Seq<Call>) -> bool
    decreases calls.len(),
{
    calls.len() == 0 || (all_served(calls.drop_last()) && can_serve(
        replay(calls.drop_last()),
        calls.last(),
    ))
}

/// The book of the live allocations after `calls`: from the slot at which an
/// allocation starts to the number of pages that were asked for.
pub open spec fn live(calls: Seq<Call>) -> Map<int, int>
    decreases calls.len(),
{
    if calls.len() == 0 {
        Map::empty()
    } else {
        match calls.last() {
            Call::Allocate { pages } => live(calls.drop_last()).insert(
                first_fit(replay(calls.drop_last()), pages),
                pages,
            ),
            Call::Deallocate { index } => live(calls.drop_last()).remove(index),
        }
    }
}

/// The pages that were asked for by the allocations that are live after
/// `calls`, added up.
pub open spec fn live_pages(calls: Seq<Call>) -> int
    decreases calls.len(),
{
    if calls.len() == 0 {
        0
    } else {
        match calls.last() {
            Call::Allocate { pages } => live_pages(calls.drop_last()) + pages,
            Call::Deallocate { index } => live_pages(calls.drop_last()) - live(
                calls.drop_last(),
            )[index],
        }
    }
}

/// The table `s` and the book `book` agree: a live run starts exactly where
/// the book has an allocation, and it is as long as the book says.
pub open spec fn book_matches(s: Seq<usize>, book: Map<int, int>) -> bool {
    &&& forall|i: int| #[trigger] book.contains_key(i) <==> is_run_start(s, i)
    &&& forall|i: int| #[trigger] book.contains_key(i) ==> s[i] == book[i]
}

/// At most one slot is the first at which a request fits.
pub proof fn lemma_first_fit_unique(s: Seq<usize>, i: int, n: int)
    requires
        is_first_fit(s, i, n),
    ensures
        first_fit(s, n) == i,
{
}

/// After any sequence of calls that can all be served, the table keeps the
/// run-length invariant and agrees with the book of the live allocations, and
/// as many pages are taken as the live allocations asked for.
pub proof fn lemma_replay(calls: Seq<Call>)
    requires
        all_served(calls),
    ensures
        replay(calls).len() == MAX_PAGE,
        runs_wf(replay(calls)),
        book_matches(replay(calls), live(calls)),
        occupied_pages(replay(calls), 0) == live_pages(calls),
    decreases calls.len(),
{
    if calls.len() == 0 {
        let s = replay(calls);
        assert forall|j: int| 0 <= j <= s.len() implies occupied_pages(s, j) == 0 by {
            lemma_free_table_is_empty(s, j);
        }
    } else {
        let before = calls.drop_last();
        lemma_replay(before);
        let s = replay(before);
        let t = replay(calls);
        match calls.last() {
            Call::Allocate { pages } => {
                let fit = choose|i: int| fits_at(s, i, pages);
                lemma_first_fit_exists(s, fit, pages);
                let i = first_fit(s, pages);
                lemma_mark_run(s, i, pages, t);
                lemma_allocate_takes_pages(s, i, pages);
                assert(book_matches(t, live(calls)));
            },
            Call::Deallocate { index } => {
                assert(live(before).contains_key(index));
                lemma_clear_run(s, index, t);
                lemma_deallocate_returns_pages(s, index);
                assert forall|i: int| #[trigger] live(calls).contains_key(i) implies t[i] == live(
                    calls,
                )[i] by {
                    assert(live(before).contains_key(i));
                    assert(is_run_start(s, i));
                    lemma_live_runs_disjoint(s, i, index);
                }
                assert(book_matches(t, live(calls)));
            },
        }
    }
}

proof fn lemma_free_table_is_empty(s: Seq<usize>, j: int)
    requires
        forall|k: int| 0 <= k < s.len() ==> s[k] == 0,
        0 <= j <= s.len(),
    ensures
        occupied_pages(s, j) == 0,
    decreases s.len() - j,
{
    if j < s.len() {
        lemma_free_table_is_empty(s, j + 1);
    }
}

/// After any sequence of calls that can all be served, no two live
/// allocations share a page.
pub proof fn lemma_live_allocations_disjoint(calls: Seq<Call>, i: int, j: int)
    requires
        all_served(calls),
        live(calls).contains_key(i),
        live(calls).contains_key(j),
        i != j,
    ensures
        i + live(calls)[i] <= j || j + live(calls)[j] <= i,
{
    lemma_replay(calls);
    lemma_live_runs_disjoint(replay(calls), i, j);
}

/// After any sequence of calls that can all be served, every slot of a live
/// allocation holds the number of pages that the allocation asked for.
pub proof fn lemma_live_allocation_keeps_length(calls: Seq<Call>, i: int, k: int)
    requires
        all_served(calls),
        live(calls).contains_key(i),
        i <= k < i + live(calls)[i],
    ensures
        0 <= k < MAX_PAGE,
        replay(calls)[k] == live(calls)[i],
{
    lemma_replay(calls);
    assert(is_run_start(replay(calls), i));
    assert(run_intact(replay(calls), i));
}

/// After any sequence of calls that can all be served, the runs that `debug`
/// lists have as many pages as the live allocations asked for.
pub proof fn lemma_dump_counts_live_pages(calls: Seq<Call>, base: int)
    requires
        all_served(calls),
    ensures
        total_pages(dump(replay(calls), base, 0)) == live_pages(calls),
{
    lemma_replay(calls);
    lemma_dump_counts_occupied_pages(replay(calls), base);
}

/// After any sequence of calls that can all be served, the release of a live
/// allocation leaves its pages free, and a request for as many pages can be
/// served next.
pub proof fn lemma_release_then_request(calls: Seq<Call>, i: int)
    requires
        all_served(calls),
        live(calls).contains_key(i),
    ensures
        all_served(calls.push(Call::Deallocate { index: i })),
        all_served(
            calls.push(Call::Deallocate { index: i }).push(
                Call::Allocate { pages: live(calls)[i] },
            ),
        ),
        forall|k: int|
            i <= k < i + live(calls)[i] ==> replay(calls.push(Call::Deallocate { index: i }))[k]
                == 0,
{
    lemma_replay(calls);
    let s = replay(calls);
    let n = live(calls)[i];
    let freed = calls.push(Call::Deallocate { index: i });
    assert(freed.drop_last() =~= calls);
    assert(is_run_start(s, i));
    assert(run_intact(s, i));
    let t = replay(freed);
    assert(fits_at(t, i, n));
    let again = freed.push(Call::Allocate { pages: n });
    assert(again.drop_last() =~= freed);
}

} // verus!

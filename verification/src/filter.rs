use vstd::prelude::*;
use vstd::seq_lib::group_seq_lib_default;
use crate::task::{Task, TaskView, views_of, lemma_views_of_index};
use crate::text::{is_prefix, is_prefix_of};

verus! {

/// The display predicate for one search text: a task is shown when its
/// text starts with the search text. An empty search text shows every task.
pub open spec fn shows(search: Seq<char>) -> spec_fn(TaskView) -> bool {
    |t: TaskView| is_prefix(search, t.text)
}

/// The displayed sequence: exactly the tasks whose text starts with the
/// search text, kept in their original order.
pub open spec fn displayed(ts: Seq<TaskView>, search: Seq<char>) -> Seq<TaskView> {
    ts.filter(shows(search))
}

/// With an empty search text the displayed sequence is the full task
/// sequence, unfiltered and in original order.
pub proof fn lemma_empty_search_shows_all(ts: Seq<TaskView>)
    ensures
        displayed(ts, Seq::<char>::empty()) == ts,
    decreases ts.len(),
{
    reveal(Seq::filter);
    if ts.len() > 0 {
        lemma_empty_search_shows_all(ts.drop_last());
        assert(displayed(ts, Seq::<char>::empty()) =~= ts);
    } else {
        assert(displayed(ts, Seq::<char>::empty()) =~= ts);
    }
}

/// A task value of the sequence occurs among the displayed tasks exactly
/// when its text starts with the search text.
pub proof fn lemma_displayed_iff(ts: Seq<TaskView>, search: Seq<char>, j: int)
    requires
        0 <= j < ts.len(),
    ensures
        is_prefix(search, ts[j].text) <==> displayed(ts, search).contains(ts[j]),
{
    broadcast use group_seq_lib_default;

    let d = displayed(ts, search);
    if d.contains(ts[j]) {
        let k = choose|k: int| 0 <= k < d.len() && d[k] == ts[j];
        assert(shows(search)(d[k]));
    }
    if is_prefix(search, ts[j].text) {
        assert(shows(search)(ts[j]));
    }
}

/// `j` is the position, in the full task sequence, of the `i`-th displayed
/// task: it is itself displayed, and exactly `i` displayed tasks precede it.
pub open spec fn is_shown_at(ts: Seq<TaskView>, search: Seq<char>, i: int, j: int) -> bool {
    0 <= j < ts.len() && is_prefix(search, ts[j].text) && displayed(ts.take(j), search).len()
        == i
}

/// The position in the full task sequence of the `i`-th displayed task.
pub open spec fn vis_index(ts: Seq<TaskView>, search: Seq<char>, i: int) -> int {
    choose|j: int| is_shown_at(ts, search, i, j)
}

/// Splitting the displayed sequence around position `j` of the full sequence.
pub proof fn lemma_displayed_split(ts: Seq<TaskView>, search: Seq<char>, j: int)
    requires
        0 <= j < ts.len(),
    ensures
        displayed(ts, search) == displayed(ts.take(j), search) + (if is_prefix(
            search,
            ts[j].text,
        ) {
            seq![ts[j]]
        } else {
            Seq::<TaskView>::empty()
        }) + displayed(ts.skip(j + 1), search),
{
    broadcast use group_seq_lib_default;

    reveal_with_fuel(Seq::filter, 3);
    let a = ts.take(j);
    let m = seq![ts[j]];
    let b = ts.skip(j + 1);
    assert(ts =~= (a + m) + b);
    assert(m.drop_last() =~= Seq::<TaskView>::empty());
    assert(displayed(ts, search) =~= displayed(a, search) + m.filter(shows(search)) + displayed(
        b,
        search,
    ));
    if is_prefix(search, ts[j].text) {
        assert(m.filter(shows(search)) =~= m);
    } else {
        assert(m.filter(shows(search)) =~= Seq::<TaskView>::empty());
    }
}

/// A position that is shown at `i` carries the `i`-th displayed task.
pub proof fn lemma_shown_at_index(ts: Seq<TaskView>, search: Seq<char>, i: int, j: int)
    requires
        is_shown_at(ts, search, i, j),
    ensures
        i < displayed(ts, search).len(),
        displayed(ts, search)[i] == ts[j],
{
    lemma_displayed_split(ts, search, j);
}

/// Two positions shown at the same displayed index are the same position.
pub proof fn lemma_shown_at_unique(ts: Seq<TaskView>, search: Seq<char>, i: int, j1: int, j2: int)
    requires
        is_shown_at(ts, search, i, j1),
        is_shown_at(ts, search, i, j2),
    ensures
        j1 == j2,
{
    broadcast use group_seq_lib_default;

    reveal_with_fuel(Seq::filter, 3);
    if j1 < j2 {
        let m = seq![ts[j1]];
        assert(ts.take(j2) =~= (ts.take(j1) + m) + ts.subrange(j1 + 1, j2));
        assert(m.drop_last() =~= Seq::<TaskView>::empty());
        assert(m.filter(shows(search)) =~= m);
        assert(displayed(ts.take(j2), search).len() >= displayed(ts.take(j1), search).len() + 1);
    } else if j2 < j1 {
        let m = seq![ts[j2]];
        assert(ts.take(j1) =~= (ts.take(j2) + m) + ts.subrange(j2 + 1, j1));
        assert(m.drop_last() =~= Seq::<TaskView>::empty());
        assert(m.filter(shows(search)) =~= m);
        assert(displayed(ts.take(j1), search).len() >= displayed(ts.take(j2), search).len() + 1);
    }
}

/// For every valid displayed index there is a position shown at it.
pub proof fn lemma_shown_at_exists(ts: Seq<TaskView>, search: Seq<char>, i: int)
    requires
        0 <= i < displayed(ts, search).len(),
    ensures
        exists|j: int| is_shown_at(ts, search, i, j),
    decreases ts.len(),
{
    reveal(Seq::filter);
    let dl = ts.drop_last();
    if i < displayed(dl, search).len() {
        lemma_shown_at_exists(dl, search, i);
        let j = choose|j: int| is_shown_at(dl, search, i, j);
        assert(ts.take(j) =~= dl.take(j));
        assert(is_shown_at(ts, search, i, j));
    } else {
        let j = ts.len() - 1;
        assert(ts.take(j) =~= dl);
        assert(is_shown_at(ts, search, i, j));
    }
}

/// What `vis_index` returns: the unique position of the `i`-th displayed task.
pub proof fn lemma_vis_index(ts: Seq<TaskView>, search: Seq<char>, i: int)
    requires
        0 <= i < displayed(ts, search).len(),
    ensures
        is_shown_at(ts, search, i, vis_index(ts, search, i)),
        0 <= vis_index(ts, search, i) < ts.len(),
        is_prefix(search, ts[vis_index(ts, search, i)].text),
        displayed(ts, search)[i] == ts[vis_index(ts, search, i)],
{
    lemma_shown_at_exists(ts, search, i);
    lemma_shown_at_index(ts, search, i, vis_index(ts, search, i));
}

/// Removing the `i`-th displayed task from the full sequence removes
/// exactly the `i`-th entry of the displayed sequence.
pub proof fn lemma_remove_displayed(ts: Seq<TaskView>, search: Seq<char>, i: int)
    requires
        0 <= i < displayed(ts, search).len(),
    ensures
        displayed(ts.remove(vis_index(ts, search, i)), search) == displayed(ts, search).remove(i),
{
    broadcast use group_seq_lib_default;

    lemma_vis_index(ts, search, i);
    let j = vis_index(ts, search, i);
    lemma_displayed_split(ts, search, j);
    let a = displayed(ts.take(j), search);
    let b = displayed(ts.skip(j + 1), search);
    assert(ts.remove(j) =~= ts.take(j) + ts.skip(j + 1));
    assert(displayed(ts.remove(j), search) =~= a + b);
    assert(displayed(ts, search).remove(i) =~= a + b);
}

/// Replacing the `i`-th displayed task by one with the same text replaces
/// exactly the `i`-th entry of the displayed sequence.
pub proof fn lemma_update_displayed(ts: Seq<TaskView>, search: Seq<char>, i: int, nt: TaskView)
    requires
        0 <= i < displayed(ts, search).len(),
        nt.text == ts[vis_index(ts, search, i)].text,
    ensures
        displayed(ts.update(vis_index(ts, search, i), nt), search) == displayed(
            ts,
            search,
        ).update(i, nt),
{
    broadcast use group_seq_lib_default;

    reveal_with_fuel(Seq::filter, 3);
    lemma_vis_index(ts, search, i);
    let j = vis_index(ts, search, i);
    lemma_displayed_split(ts, search, j);
    let a = displayed(ts.take(j), search);
    let b = displayed(ts.skip(j + 1), search);
    let m = seq![nt];
    assert(ts.update(j, nt) =~= (ts.take(j) + m) + ts.skip(j + 1));
    assert(m.drop_last() =~= Seq::<TaskView>::empty());
    assert(m.filter(shows(search)) =~= m);
    assert(displayed(ts.update(j, nt), search) =~= a + m + b);
    assert(displayed(ts, search).update(i, nt) =~= a + m + b);
}

/// The number of displayed tasks for the given search text.
#[verifier::loop_isolation(false)]
pub fn count_displayed(tasks: &Vec<Task>, search: &String) -> (n: usize)
    ensures
        n == displayed(views_of(tasks@), search@).len(),
{
    broadcast use lemma_views_of_index;

    reveal(Seq::filter);
    let ghost vs = views_of(tasks@);
    let mut n: usize = 0;
    let mut k: usize = 0;
    while k < tasks.len()
        invariant
            0 <= k <= tasks.len(),
            n == displayed(vs.take(k as int), search@).len(),
            n <= k,
        decreases tasks.len() - k,
    {
        proof {
            assert(vs.take(k + 1).drop_last() =~= vs.take(k as int));
            assert(vs.take(k + 1).last() == vs[k as int]);
        }
        if is_prefix_of(search.as_str(), tasks[k].text.as_str()) {
            n += 1;
        }
        k += 1;
    }
    proof {
        assert(vs.take(tasks@.len() as int) =~= vs);
    }
    n
}

/// The position in the full task vector of the `i`-th displayed task.
#[verifier::loop_isolation(false)]
pub fn find_displayed(tasks: &Vec<Task>, search: &String, i: usize) -> (j: usize)
    requires
        i < displayed(views_of(tasks@), search@).len(),
    ensures
        j < tasks.len(),
        j == vis_index(views_of(tasks@), search@, i as int),
        is_shown_at(views_of(tasks@), search@, i as int, j as int),
{
    broadcast use lemma_views_of_index;

    reveal(Seq::filter);
    let ghost vs = views_of(tasks@);
    let mut c: usize = 0;
    let mut j: usize = 0;
    while j < tasks.len()
        invariant
            0 <= j <= tasks.len(),
            c == displayed(vs.take(j as int), search@).len(),
            c <= i,
        decreases tasks.len() - j,
    {
        proof {
            assert(vs.take(j + 1).drop_last() =~= vs.take(j as int));
            assert(vs.take(j + 1).last() == vs[j as int]);
        }
        if is_prefix_of(search.as_str(), tasks[j].text.as_str()) {
            if c == i {
                proof {
                    lemma_shown_at_unique(
                        vs,
                        search@,
                        i as int,
                        j as int,
                        vis_index(vs, search@, i as int),
                    );
                    lemma_vis_index(vs, search@, i as int);
                }
                return j;
            }
            c += 1;
        }
        j += 1;
    }
    proof {
        assert(vs.take(tasks@.len() as int) =~= vs);
        assert(false);
    }
    0
}

} // verus!

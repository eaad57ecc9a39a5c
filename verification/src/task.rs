use vstd::prelude::*;

verus! {

/// A single todo entry: its text and whether it has been completed.
///
/// Tasks have no identity beyond their position in the task sequence;
/// deletion and toggling address tasks by position.
pub struct Task {
    pub text: String,
    pub completed: bool,
}

/// Mathematical model of a task: the text as a sequence of characters
/// together with the completion flag.
#[verifier::ext_equal]
pub ghost struct TaskView {
    pub text: Seq<char>,
    pub completed: bool,
}

impl View for Task {
    type V = TaskView;

    open spec fn view(&self) -> TaskView {
        TaskView { text: self.text@, completed: self.completed }
    }
}

/// A character that may appear in task text, search text or draft text:
/// anything except the control characters, which the persisted format
/// would have to escape and which no printable key produces.
pub open spec fn clean_char(c: char) -> bool {
    c as u32 >= 0x20
}

/// Every character of the text is a `clean_char`.
pub open spec fn text_clean(t: Seq<char>) -> bool {
    forall|i: int| 0 <= i < t.len() ==> clean_char(t[i])
}

/// Every task text in the sequence is clean.
pub open spec fn tasks_clean(ts: Seq<TaskView>) -> bool {
    forall|i: int| 0 <= i < ts.len() ==> text_clean(#[trigger] ts[i].text)
}

/// Runtime check for `clean_char`.
pub fn is_clean_char(c: char) -> (r: bool)
    ensures
        r == clean_char(c),
{
    c as u32 >= 0x20
}

/// The models of a vector of tasks, element by element.
pub open spec fn views_of(ts: Seq<Task>) -> Seq<TaskView> {
    ts.map_values(|t: Task| t@)
}

/// Indexing into `views_of` is indexing into the tasks, then taking the view.
pub broadcast proof fn lemma_views_of_index(ts: Seq<Task>, i: int)
    requires
        0 <= i < ts.len(),
    ensures
        #[trigger] views_of(ts)[i] == ts[i]@,
        views_of(ts).len() == ts.len(),
{
}

/// `views_of` commutes with removing an element.
pub proof fn lemma_views_of_remove(ts: Seq<Task>, j: int)
    requires
        0 <= j < ts.len(),
    ensures
        views_of(ts.remove(j)) == views_of(ts).remove(j),
{
    broadcast use lemma_views_of_index;

    assert(views_of(ts.remove(j)) =~= views_of(ts).remove(j));
}

/// `views_of` commutes with appending an element.
pub proof fn lemma_views_of_push(ts: Seq<Task>, t: Task)
    ensures
        views_of(ts.push(t)) == views_of(ts).push(t@),
{
    broadcast use lemma_views_of_index;

    assert(views_of(ts.push(t)) =~= views_of(ts).push(t@));
}

/// `views_of` commutes with replacing an element.
pub proof fn lemma_views_of_update(ts: Seq<Task>, j: int, t: Task)
    requires
        0 <= j < ts.len(),
    ensures
        views_of(ts.update(j, t)) == views_of(ts).update(j, t@),
{
    broadcast use lemma_views_of_index;

    assert(views_of(ts.update(j, t)) =~= views_of(ts).update(j, t@));
}

/// Runtime check for `tasks_clean`, so that an unverified caller can
/// establish the precondition of functions that require clean tasks.
#[verifier::loop_isolation(false)]
pub fn tasks_are_clean(tasks: &Vec<Task>) -> (r: bool)
    ensures
        r == tasks_clean(views_of(tasks@)),
{
    broadcast use lemma_views_of_index;

    let mut i: usize = 0;
    while i < tasks.len()
        invariant
            0 <= i <= tasks.len(),
            forall|k: int| 0 <= k < i ==> text_clean(#[trigger] tasks@[k]@.text),
        decreases tasks.len() - i,
    {
        let text = &tasks[i].text;
        let n = text.as_str().unicode_len();
        let mut j: usize = 0;
        while j < n
            invariant
                0 <= j <= n,
                n == text@.len(),
                forall|k: int| 0 <= k < j ==> clean_char(#[trigger] text@[k]),
            decreases n - j,
        {
            if !is_clean_char(text.as_str().get_char(j)) {
                assert(0 <= j < text@.len() && !clean_char(text@[j as int]));
                assert(views_of(tasks@)[i as int].text == text@);
                return false;
            }
            j += 1;
        }
        assert(tasks@[i as int]@.text == text@);
        i += 1;
    }
    true
}

} // verus!

//! The failure ledger: which tasks ended abnormally, and how.

use vstd::prelude::*;
use vstd::string::*;
use crate::error::{Error, ErrorView};

verus! {

/// One line of a ledger: a task's name and the failure recorded under it.
pub type Line = (Seq<char>, ErrorView);

/// The mapping that a list of lines stands for. A later line replaces an
/// earlier one under the same name.
pub open spec fn ledger_of(lines: Seq<Line>) -> Map<Seq<char>, ErrorView>
    decreases lines.len(),
{
    if lines.len() == 0 {
        Map::empty()
    } else {
        ledger_of(lines.drop_last()).insert(lines.last().0, lines.last().1)
    }
}

/// No name heads two lines.
pub open spec fn distinct_names(lines: Seq<Line>) -> bool {
    forall|i: int, j: int| 0 <= i < j < lines.len() ==> lines[i].0 != lines[j].0
}

/// The error that reports the abnormal end of the task `name`, where
/// `cause` describes what ended it.
pub open spec fn join_failure(name: Seq<char>, cause: Seq<char>) -> ErrorView {
    ErrorView::ThreadJoinError("joining thread "@ + name + ": "@ + cause)
}

/// What a join hands to its caller once the task `name` has ended with
/// `outcome`: the task's value, or the failure that reports its cause.
pub open spec fn settled<T>(name: Seq<char>, outcome: Result<T, String>) -> Result<T, ErrorView> {
    match outcome {
        Ok(value) => Ok(value),
        Err(cause) => Err(join_failure(name, cause@)),
    }
}

/// The ledger after the task `name` has ended with `outcome`: unchanged by
/// a normal end, one failure richer (under the task's name) otherwise.
pub open spec fn recorded<T>(
    ledger: Map<Seq<char>, ErrorView>,
    name: Seq<char>,
    outcome: Result<T, String>,
) -> Map<Seq<char>, ErrorView> {
    match outcome {
        Ok(_) => ledger,
        Err(cause) => ledger.insert(name, join_failure(name, cause@)),
    }
}

/// The lines that a list of named errors stands for.
pub open spec fn lines_of(entries: Seq<(String, Error)>) -> Seq<Line> {
    entries.map_values(|line: (String, Error)| (line.0@, line.1@))
}

/// The content of a result that may carry an [`Error`].
pub open spec fn result_view<T>(r: Result<T, Error>) -> Result<T, ErrorView> {
    match r {
        Ok(value) => Ok(value),
        Err(e) => Err(e@),
    }
}

/// A name is in the ledger exactly if it heads one of the lines.
pub proof fn lemma_ledger_names(lines: Seq<Line>, name: Seq<char>)
    ensures
        ledger_of(lines).dom().contains(name) <==> exists|i: int|
            0 <= i < lines.len() && #[trigger] lines[i].0 == name,
    decreases lines.len(),
{
    if lines.len() > 0 {
        let front = lines.drop_last();
        lemma_ledger_names(front, name);
        if ledger_of(lines).dom().contains(name) {
            if lines.last().0 == name {
                assert(lines[lines.len() - 1].0 == name);
            } else {
                let i = choose|i: int| 0 <= i < front.len() && #[trigger] front[i].0 == name;
                assert(lines[i].0 == name);
            }
        }
        if exists|i: int| 0 <= i < lines.len() && #[trigger] lines[i].0 == name {
            let i = choose|i: int| 0 <= i < lines.len() && #[trigger] lines[i].0 == name;
            if i < lines.len() - 1 {
                assert(front[i].0 == name);
            }
        }
    }
}

/// Where no name heads two lines, each line's failure is the one the
/// ledger holds under that line's name.
pub proof fn lemma_ledger_line(lines: Seq<Line>, i: int)
    requires
        distinct_names(lines),
        0 <= i < lines.len(),
    ensures
        ledger_of(lines).dom().contains(lines[i].0),
        ledger_of(lines)[lines[i].0] == lines[i].1,
    decreases lines.len(),
{
    let front = lines.drop_last();
    if i < lines.len() - 1 {
        assert(distinct_names(front));
        lemma_ledger_line(front, i);
        assert(front[i] == lines[i]);
        assert(lines[i].0 != lines[lines.len() - 1].0);
    }
}

/// Where no name heads two lines, the ledger has as many entries as there
/// are lines.
pub proof fn lemma_ledger_len(lines: Seq<Line>)
    requires
        distinct_names(lines),
    ensures
        ledger_of(lines).dom().finite(),
        ledger_of(lines).dom().len() == lines.len(),
    decreases lines.len(),
{
    if lines.len() > 0 {
        let front = lines.drop_last();
        assert(distinct_names(front));
        lemma_ledger_len(front);
        lemma_ledger_names(front, lines.last().0);
        if ledger_of(front).dom().contains(lines.last().0) {
            let i = choose|i: int| 0 <= i < front.len() && #[trigger] front[i].0 == lines.last().0;
            assert(lines[i].0 == lines[lines.len() - 1].0);
        }
    }
}

/// Rewriting the line that a name heads is inserting under that name.
pub proof fn lemma_ledger_rewrite(lines: Seq<Line>, i: int, failure: ErrorView)
    requires
        distinct_names(lines),
        0 <= i < lines.len(),
    ensures
        distinct_names(lines.update(i, (lines[i].0, failure))),
        ledger_of(lines.update(i, (lines[i].0, failure))) == ledger_of(lines).insert(
            lines[i].0,
            failure,
        ),
{
    let name = lines[i].0;
    let after = lines.update(i, (name, failure));
    let want = ledger_of(lines).insert(name, failure);
    assert(distinct_names(after)) by {
        assert forall|a: int, b: int| 0 <= a < b < after.len() implies after[a].0 != after[b].0 by {
            assert(after[a].0 == lines[a].0);
            assert(after[b].0 == lines[b].0);
        }
    }
    assert forall|k: Seq<char>| ledger_of(after).dom().contains(k) <==> want.dom().contains(
        k,
    ) by {
        lemma_ledger_names(after, k);
        lemma_ledger_names(lines, k);
        if exists|j: int| 0 <= j < after.len() && #[trigger] after[j].0 == k {
            let j = choose|j: int| 0 <= j < after.len() && #[trigger] after[j].0 == k;
            assert(lines[j].0 == k);
        }
        if exists|j: int| 0 <= j < lines.len() && #[trigger] lines[j].0 == k {
            let j = choose|j: int| 0 <= j < lines.len() && #[trigger] lines[j].0 == k;
            assert(after[j].0 == k);
        }
    }
    assert forall|k: Seq<char>| ledger_of(after).dom().contains(k) implies ledger_of(after)[k]
        == want[k] by {
        lemma_ledger_names(after, k);
        let j = choose|j: int| 0 <= j < after.len() && #[trigger] after[j].0 == k;
        lemma_ledger_line(after, j);
        lemma_ledger_line(lines, j);
    }
    assert(ledger_of(after) =~= want);
}

/// The failures observed so far, each under the name of the task that
/// failed. Nothing is ever removed.
pub struct Failures {
    lines: Vec<(String, Error)>,
}

impl View for Failures {
    type V = Map<Seq<char>, ErrorView>;

    closed spec fn view(&self) -> Map<Seq<char>, ErrorView> {
        ledger_of(self.lines_view())
    }
}

impl Failures {
    /// The lines as they are stored, by content.
    pub closed spec fn lines_view(&self) -> Seq<Line> {
        lines_of(self.lines@)
    }

    /// The ledger is well formed: it is stored with one line per name.
    pub closed spec fn wf(&self) -> bool {
        distinct_names(self.lines_view())
    }

    /// A well-formed ledger is finite.
    pub proof fn lemma_finite(&self)
        requires
            self.wf(),
        ensures
            self@.dom().finite(),
    {
        lemma_ledger_len(self.lines_view());
    }

    /// A ledger without entries.
    pub fn new() -> (ledger: Failures)
        ensures
            ledger.wf(),
            ledger@ == Map::<Seq<char>, ErrorView>::empty(),
    {
        let ledger = Failures { lines: Vec::new() };
        assert(ledger.lines_view() =~= Seq::<Line>::empty());
        ledger
    }

    /// The number of tasks recorded as failed.
    pub fn len(&self) -> (n: usize)
        requires
            self.wf(),
        ensures
            n == self@.dom().len(),
    {
        proof {
            lemma_ledger_len(self.lines_view());
        }
        self.lines.len()
    }

    /// Whether no failure has been recorded.
    pub fn is_empty(&self) -> (empty: bool)
        requires
            self.wf(),
        ensures
            empty == (self@.dom().len() == 0),
            empty == (self@ == Map::<Seq<char>, ErrorView>::empty()),
    {
        proof {
            lemma_ledger_len(self.lines_view());
            if self.lines.len() == 0 {
                assert(self@ =~= Map::<Seq<char>, ErrorView>::empty());
            }
        }
        self.lines.len() == 0
    }

    /// Where the line headed by `name` is stored, if there is one.
    fn position(&self, name: &String) -> (at: Option<usize>)
        requires
            self.wf(),
        ensures
            match at {
                Some(i) => i < self.lines.len() && self.lines_view()[i as int].0 == name@,
                None => !self@.dom().contains(name@),
            },
    {
        let mut i: usize = 0;
        while i < self.lines.len()
            invariant
                i <= self.lines.len(),
                forall|j: int| 0 <= j < i ==> (#[trigger] self.lines_view()[j]).0 != name@,
            decreases self.lines.len() - i,
        {
            if self.lines[i].0 == *name {
                return Some(i);
            }
            i += 1;
        }
        proof {
            lemma_ledger_names(self.lines_view(), name@);
        }
        None
    }

    /// Whether a failure is recorded under `name`.
    pub fn contains(&self, name: &str) -> (found: bool)
        requires
            self.wf(),
        ensures
            found == self@.dom().contains(name@),
    {
        let key = String::from_str(name);
        match self.position(&key) {
            Some(i) => {
                proof {
                    lemma_ledger_line(self.lines_view(), i as int);
                }
                true
            },
            None => false,
        }
    }

    /// The failure recorded under `name`, if there is one.
    pub fn get(&self, name: &str) -> (found: Option<&Error>)
        requires
            self.wf(),
        ensures
            match found {
                Some(e) => self@.dom().contains(name@) && e@ == self@[name@],
                None => !self@.dom().contains(name@),
            },
    {
        let key = String::from_str(name);
        match self.position(&key) {
            Some(i) => {
                proof {
                    lemma_ledger_line(self.lines_view(), i as int);
                }
                Some(&self.lines[i].1)
            },
            None => None,
        }
    }

    /// The entries as a list, one for each name, in the order in which
    /// the names were first recorded.
    pub fn to_vec(&self) -> (entries: Vec<(String, Error)>)
        requires
            self.wf(),
        ensures
            distinct_names(lines_of(entries@)),
            ledger_of(lines_of(entries@)) == self@,
            entries@.len() == self@.dom().len(),
    {
        proof {
            lemma_ledger_len(self.lines_view());
        }
        self.clone().lines
    }

    /// Records `error` under `name`, in place of what was recorded under
    /// that name before, if anything was.
    pub fn insert(&mut self, name: String, error: Error)
        requires
            old(self).wf(),
        ensures
            final(self).wf(),
            final(self)@ == old(self)@.insert(name@, error@),
    {
        let ghost before = self.lines_view();
        match self.position(&name) {
            Some(i) => {
                self.lines.set(i, (name, error));
                proof {
                    lemma_ledger_rewrite(before, i as int, error@);
                    assert(self.lines_view() =~= before.update(i as int, (name@, error@)));
                }
            },
            None => {
                self.lines.push((name, error));
                proof {
                    assert(self.lines_view() =~= before.push((name@, error@)));
                    assert(self.lines_view().drop_last() =~= before);
                    assert forall|a: int, b: int|
                        0 <= a < b < self.lines_view().len() implies self.lines_view()[a].0
                        != self.lines_view()[b].0 by {
                        if b == before.len() {
                            lemma_ledger_names(before, name@);
                            assert(before[a].0 == self.lines_view()[a].0);
                        } else {
                            assert(before[a].0 == self.lines_view()[a].0);
                            assert(before[b].0 == self.lines_view()[b].0);
                        }
                    }
                }
            },
        }
    }

    /// Settles the task `name`, which has ended with `outcome`. A value is
    /// handed on and the ledger stays as it is. A failure is turned into
    /// the error that reports it, recorded under the task's name, and
    /// handed on as well.
    pub fn record<T>(&mut self, name: String, outcome: Result<T, String>) -> (r: Result<T, Error>)
        requires
            old(self).wf(),
        ensures
            final(self).wf(),
            result_view(r) == settled(name@, outcome),
            final(self)@ == recorded(old(self)@, name@, outcome),
    {
        match outcome {
            Ok(value) => Ok(value),
            Err(cause) => {
                let mut message = String::from_str("joining thread ");
                message.append(name.as_str());
                message.append(": ");
                message.append(cause.as_str());
                assert(message@ =~= "joining thread "@ + name@ + ": "@ + cause@);
                let error = Error::ThreadJoinError(message);
                self.insert(name, error.clone());
                Err(error)
            },
        }
    }
}

impl Clone for Failures {
    /// A snapshot: a ledger of its own with the same entries.
    fn clone(&self) -> (copy: Failures)
        ensures
            copy@ == self@,
            copy.lines_view() == self.lines_view(),
            self.wf() ==> copy.wf(),
    {
        let mut lines: Vec<(String, Error)> = Vec::new();
        let mut i: usize = 0;
        while i < self.lines.len()
            invariant
                i <= self.lines.len(),
                lines@ == self.lines@.subrange(0, i as int),
            decreases self.lines.len() - i,
        {
            let name = self.lines[i].0.clone();
            let error = self.lines[i].1.clone();
            lines.push((name, error));
            assert(lines@ =~= self.lines@.subrange(0, i + 1));
            i += 1;
        }
        assert(lines@ =~= self.lines@);
        Failures { lines }
    }
}

} // verus!

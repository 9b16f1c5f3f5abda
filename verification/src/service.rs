//! The in-memory context of the engine: every question with its mastery
//! state and answer history, the item sets, and the per-descriptor
//! ("factory") item lists.  One `Service` value is built per process
//! start from the persisted rows and then updated as answers arrive;
//! persistence itself stays outside.

use vstd::prelude::*;

verus! {

use crate::estimator::Estimate;
use crate::estimator::MasteryState;
use crate::estimator::decay_fold;
use crate::estimator::decay_next;
use crate::questions::RunnerData;
use crate::selection::RankedItem;
use crate::selection::TimedItem;
use crate::selection::bottom_k;
use crate::selection::entries_of;
use crate::selection::min_int;
use crate::selection::oldest_first;
use crate::selection::ranked_prefix_post;
use crate::selection::time_entries_of;
use crate::selection::uniform_random;
use crate::selection::weighted_random;
use crate::selection::wf_items;

/// One recorded answer: which question, when, and whether it was
/// correct.  Immutable and append-only, ordered by time per question.
#[derive(Clone, Copy, Debug, PartialEq, Eq, Structural)]
pub struct Answer {
    pub question_id: i64,
    pub time: i64,
    pub correct: bool,
}

/// One membership row: the named set contains the question.
#[derive(Clone, Debug)]
pub struct QuestionSet {
    pub id: i64,
    pub name: String,
    pub question_id: i64,
}

/// One question with its durable identity, advisory counters, content,
/// and in-memory mastery state.
#[derive(Clone, Debug)]
pub struct Question {
    pub id: i64,
    pub factory: String,
    pub name: String,
    pub created_at: i64,
    pub num_correct: u32,
    pub num_incorrect: u32,
    pub runner: RunnerData,
    pub state: MasteryState,
    pub answers: Vec<Answer>,
}

/// The optional pre-filter every strategy composes with.
#[derive(Clone, Copy, Debug, PartialEq, Eq, Structural)]
pub enum Selection {
    All,
    Practiced,
}

/// A named, ordered list of question ids: an item set, or the items of
/// one descriptor.
#[derive(Clone, Debug)]
pub struct SetEntry {
    pub name: String,
    pub members: Vec<i64>,
}

pub open spec fn corrects(answers: Seq<Answer>) -> Seq<bool> {
    answers.map_values(|a: Answer| a.correct)
}

/// The answers of one question, in recorded order.
pub open spec fn answers_for(answers: Seq<Answer>, id: i64) -> Seq<Answer> {
    answers.filter(|a: Answer| a.question_id == id)
}

/// The ids a named set collects from the membership rows, in row order.
pub open spec fn members_for(rows: Seq<QuestionSet>, name: Seq<char>) -> Seq<i64> {
    rows.filter(|m: QuestionSet| m.name@ == name).map_values(|m: QuestionSet| m.question_id)
}

/// The ids of the questions belonging to a named descriptor, in
/// question order.
pub open spec fn factory_ids(qs: Seq<Question>, name: Seq<char>) -> Seq<i64> {
    qs.filter(|q: Question| q.factory@ == name).map_values(|q: Question| q.id)
}

pub open spec fn sorted_by_time(answers: Seq<Answer>) -> bool {
    forall|i: int, j: int| 0 <= i < j < answers.len() ==> answers[i].time <= answers[j].time
}

/// A question with this id is registered.
pub open spec fn has_id(qs: Seq<Question>, id: i64) -> bool {
    exists|i: int| 0 <= i < qs.len() && (#[trigger] qs[i]).id == id
}

/// An entry with this name exists.
pub open spec fn has_name(entries: Seq<SetEntry>, name: Seq<char>) -> bool {
    exists|i: int| 0 <= i < entries.len() && (#[trigger] entries[i]).name@ == name
}

/// Some membership row carries this set name.
pub open spec fn row_name_present(rows: Seq<QuestionSet>, name: Seq<char>) -> bool {
    exists|u: int| 0 <= u < rows.len() && (#[trigger] rows[u]).name@ == name
}

/// Some question belongs to a descriptor of this name.
pub open spec fn factory_name_used(qs: Seq<Question>, name: Seq<char>) -> bool {
    exists|u: int| 0 <= u < qs.len() && (#[trigger] qs[u]).factory@ == name
}

/// The member list of the entry carrying `name`; meaningful under
/// `has_name`.
pub open spec fn entry_members(entries: Seq<SetEntry>, name: Seq<char>) -> Seq<i64> {
    entries[choose|i: int|
        0 <= i < entries.len() && (#[trigger] entries[i]).name@ == name].members@
}

/// With distinct names, `entry_members` reads exactly the entry a
/// lookup finds.
proof fn lemma_entry_members_at(entries: Seq<SetEntry>, i: int)
    requires
        forall|k: int, l: int| 0 <= k < l < entries.len() ==> entries[k].name@ != entries[l].name@,
        0 <= i < entries.len(),
    ensures
        has_name(entries, entries[i].name@),
        entry_members(entries, entries[i].name@) == entries[i].members@,
{
    let name = entries[i].name@;
    assert(has_name(entries, name));
    let j = choose|j: int| 0 <= j < entries.len() && (#[trigger] entries[j]).name@ == name;
    if i < j {
        assert(entries[i].name@ != entries[j].name@);
    } else if j < i {
        assert(entries[j].name@ != entries[i].name@);
    }
}

proof fn lemma_answers_for_push(s: Seq<Answer>, id: i64, x: Answer)
    ensures
        answers_for(s.push(x), id) == if x.question_id == id {
            answers_for(s, id).push(x)
        } else {
            answers_for(s, id)
        },
{
    reveal(Seq::filter);
    assert(s.push(x).drop_last() =~= s);
    assert(s.push(x).last() == x);
}

proof fn lemma_members_for_push(s: Seq<QuestionSet>, name: Seq<char>, x: QuestionSet)
    ensures
        members_for(s.push(x), name) == if x.name@ == name {
            members_for(s, name).push(x.question_id)
        } else {
            members_for(s, name)
        },
{
    reveal(Seq::filter);
    assert(s.push(x).drop_last() =~= s);
    assert(s.push(x).last() == x);
    if x.name@ == name {
        assert(members_for(s.push(x), name) =~= members_for(s, name).push(x.question_id));
    } else {
        assert(members_for(s.push(x), name) =~= members_for(s, name));
    }
}

proof fn lemma_factory_ids_push(s: Seq<Question>, name: Seq<char>, x: Question)
    ensures
        factory_ids(s.push(x), name) == if x.factory@ == name {
            factory_ids(s, name).push(x.id)
        } else {
            factory_ids(s, name)
        },
{
    reveal(Seq::filter);
    assert(s.push(x).drop_last() =~= s);
    assert(s.push(x).last() == x);
    if x.factory@ == name {
        assert(factory_ids(s.push(x), name) =~= factory_ids(s, name).push(x.id));
    } else {
        assert(factory_ids(s.push(x), name) =~= factory_ids(s, name));
    }
}

/// Every id a set collects comes from a membership row of that set.
proof fn lemma_members_for_origin(rows: Seq<QuestionSet>, name: Seq<char>, t: int)
    requires
        0 <= t < members_for(rows, name).len(),
    ensures
        exists|u: int|
            0 <= u < rows.len() && (#[trigger] rows[u]).question_id == members_for(rows, name)[t]
                && rows[u].name@ == name,
    decreases rows.len(),
{
    reveal(Seq::filter);
    if rows.len() == 0 {
    } else {
        let s0 = rows.drop_last();
        let x = rows.last();
        assert(rows =~= s0.push(x));
        lemma_members_for_push(s0, name, x);
        if t < members_for(s0, name).len() {
            lemma_members_for_origin(s0, name, t);
            let u = choose|u: int|
                0 <= u < s0.len() && (#[trigger] s0[u]).question_id == members_for(s0, name)[t]
                    && s0[u].name@ == name;
            assert(rows[u].question_id == members_for(rows, name)[t] && rows[u].name@ == name);
        } else {
            assert(x.name@ == name && x.question_id == members_for(rows, name)[t]);
            assert(rows[rows.len() - 1] == x);
        }
    }
}

/// Every id a descriptor collects is the id of one of its questions.
proof fn lemma_factory_ids_origin(qs: Seq<Question>, name: Seq<char>, t: int)
    requires
        0 <= t < factory_ids(qs, name).len(),
    ensures
        exists|u: int|
            0 <= u < qs.len() && (#[trigger] qs[u]).id == factory_ids(qs, name)[t] && qs[u].factory@
                == name,
    decreases qs.len(),
{
    reveal(Seq::filter);
    if qs.len() == 0 {
    } else {
        let s0 = qs.drop_last();
        let x = qs.last();
        assert(qs =~= s0.push(x));
        lemma_factory_ids_push(s0, name, x);
        if t < factory_ids(s0, name).len() {
            lemma_factory_ids_origin(s0, name, t);
            let u = choose|u: int|
                0 <= u < s0.len() && (#[trigger] s0[u]).id == factory_ids(s0, name)[t]
                    && s0[u].factory@ == name;
            assert(qs[u].id == factory_ids(qs, name)[t] && qs[u].factory@ == name);
        } else {
            assert(x.factory@ == name && x.id == factory_ids(qs, name)[t]);
            assert(qs[qs.len() - 1] == x);
        }
    }
}

impl Question {
    /// The mastery state is exactly the fold of the recorded answers.
    pub open spec fn wf(self) -> bool {
        &&& self.state.wf()
        &&& self.state.model() == decay_fold(corrects(self.answers@))
        &&& self.state.num_events == self.answers@.len()
        &&& forall|i: int|
            0 <= i < self.answers@.len() ==> (#[trigger] self.answers@[i]).question_id == self.id
    }
}

pub struct Service {
    pub questions: Vec<Question>,
    pub sets: Vec<SetEntry>,
    pub factories: Vec<SetEntry>,
}

impl Service {
    pub open spec fn wf(self) -> bool {
        &&& forall|i: int, j: int|
            0 <= i < j < self.questions@.len() ==> self.questions@[i].id != self.questions@[j].id
        &&& forall|i: int| 0 <= i < self.questions@.len() ==> (#[trigger] self.questions@[i]).wf()
        &&& forall|i: int, j: int|
            0 <= i < j < self.sets@.len() ==> self.sets@[i].name@ != self.sets@[j].name@
        &&& forall|i: int, t: int|
            0 <= i < self.sets@.len() && 0 <= t < self.sets@[i].members@.len()
                ==> self.has_question(#[trigger] self.sets@[i].members@[t])
        &&& forall|i: int, j: int|
            0 <= i < j < self.factories@.len() ==> self.factories@[i].name@
                != self.factories@[j].name@
        &&& forall|i: int, t: int|
            0 <= i < self.factories@.len() && 0 <= t < self.factories@[i].members@.len()
                ==> self.has_question(#[trigger] self.factories@[i].members@[t])
    }

    pub open spec fn has_question(self, id: i64) -> bool {
        has_id(self.questions@, id)
    }

    /// The question carrying `id`; meaningful under `has_question`.
    pub open spec fn q_at(self, id: i64) -> Question {
        self.questions@[choose|i: int|
            0 <= i < self.questions@.len() && (#[trigger] self.questions@[i]).id == id]
    }

    pub open spec fn has_set(self, name: Seq<char>) -> bool {
        has_name(self.sets@, name)
    }

    pub open spec fn set_members(self, name: Seq<char>) -> Seq<i64> {
        entry_members(self.sets@, name)
    }

    pub open spec fn has_factory(self, name: Seq<char>) -> bool {
        has_name(self.factories@, name)
    }

    pub open spec fn factory_members(self, name: Seq<char>) -> Seq<i64> {
        entry_members(self.factories@, name)
    }

    /// The choice in `q_at` picks the index a lookup finds.
    proof fn lemma_q_at_index(self, i: int)
        requires
            self.wf(),
            0 <= i < self.questions@.len(),
        ensures
            self.has_question(self.questions@[i].id),
            self.q_at(self.questions@[i].id) == self.questions@[i],
    {
        let id = self.questions@[i].id;
        assert(self.has_question(id));
        let j = choose|j: int|
            0 <= j < self.questions@.len() && (#[trigger] self.questions@[j]).id == id;
        if i < j {
            assert(self.questions@[i].id != self.questions@[j].id);
        } else if j < i {
            assert(self.questions@[j].id != self.questions@[i].id);
        }
    }
}

/// Relies on str's PartialEq: equality of the character sequences.
#[verifier::external_body]
fn str_eq(a: &str, b: &str) -> (r: bool)
    ensures
        r == (a@ == b@),
{
    a == b
}

/// Looks a question up by id.
fn find_question(questions: &Vec<Question>, id: i64) -> (r: Option<usize>)
    ensures
        match r {
            Option::Some(i) => (i as int) < questions@.len() && questions@[i as int].id == id,
            Option::None => forall|i: int|
                0 <= i < questions@.len() ==> (#[trigger] questions@[i]).id != id,
        },
{
    let mut i: usize = 0;
    while i < questions.len()
        invariant
            i <= questions@.len(),
            forall|t: int| 0 <= t < i ==> (#[trigger] questions@[t]).id != id,
        decreases questions@.len() - i,
    {
        if questions[i].id == id {
            return Option::Some(i);
        }
        i = i + 1;
    }
    Option::None
}

/// Looks a set entry up by name.
fn find_entry(entries: &Vec<SetEntry>, name: &str) -> (r: Option<usize>)
    ensures
        match r {
            Option::Some(i) => (i as int) < entries@.len() && entries@[i as int].name@ == name@,
            Option::None => forall|i: int|
                0 <= i < entries@.len() ==> (#[trigger] entries@[i]).name@ != name@,
        },
{
    let mut i: usize = 0;
    while i < entries.len()
        invariant
            i <= entries@.len(),
            forall|t: int| 0 <= t < i ==> (#[trigger] entries@[t]).name@ != name@,
        decreases entries@.len() - i,
    {
        if str_eq(entries[i].name.as_str(), name) {
            return Option::Some(i);
        }
        i = i + 1;
    }
    Option::None
}

/// Sorts answers ascending by time: an insertion sort, used to put the
/// persisted history into replay order before a rebuild.
pub fn sort_answers(answers: Vec<Answer>) -> (r: Vec<Answer>)
    ensures
        r@.len() == answers@.len(),
        r@.to_multiset() == answers@.to_multiset(),
        sorted_by_time(r@),
{
    let mut v = answers;
    let ghost orig = v@;
    let n = v.len();
    let mut i: usize = 0;
    while i < n
        invariant
            i <= n,
            n == v@.len(),
            v@.to_multiset() == orig.to_multiset(),
            forall|k: int, l: int| 0 <= k < l < i ==> v@[k].time <= v@[l].time,
        decreases n - i,
    {
        let mut j: usize = i;
        while j > 0 && v[j].time < v[j - 1].time
            invariant
                j <= i < n,
                n == v@.len(),
                v@.to_multiset() == orig.to_multiset(),
                forall|k: int, l: int| 0 <= k < l <= i && l != j ==> v@[k].time <= v@[l].time,
                forall|l: int| j < l <= i ==> v@[j as int].time <= v@[l].time,
            decreases j,
        {
            let ghost before = v@;
            let a = v[j - 1];
            let b = v[j];
            v[j - 1] = b;
            let ghost mid = v@;
            v[j] = a;
            proof {
                assert(v@.to_multiset() =~= before.to_multiset()) by {
                    broadcast use vstd::multiset::group_multiset_axioms;

                    assert(mid == before.update(j - 1, b));
                    assert(v@ == mid.update(j as int, a));
                    assert(before[j - 1] == a);
                    assert(before.contains(a));
                    vstd::seq_lib::to_multiset_contains(before, a);
                    vstd::seq_lib::to_multiset_update(before, j - 1, b);
                    vstd::seq_lib::to_multiset_update(mid, j as int, a);
                }
            }
            j = j - 1;
        }
        i = i + 1;
    }
    v
}

impl Service {
    /// Builds the whole context from persisted rows: every question is
    /// registered with a neutral state, its history is replayed through
    /// the decay update in the given (time-sorted) order, and the set
    /// and descriptor item lists are grouped from the rows.
    pub fn new(
        questions: Vec<Question>,
        answers: Vec<Answer>,
        memberships: Vec<QuestionSet>,
    ) -> (s: Service)
        requires
            forall|i: int, j: int|
                0 <= i < j < questions@.len() ==> questions@[i].id != questions@[j].id,
            forall|i: int|
                0 <= i < questions@.len() ==> (#[trigger] questions@[i]).answers@.len() == 0,
            forall|i: int|
                0 <= i < questions@.len() ==> (#[trigger] questions@[i]).state == (MasteryState {
                    weighted_total: 0,
                    weighted_correct: 0,
                    num_events: 0,
                }),
            sorted_by_time(answers@),
            forall|t: int|
                0 <= t < answers@.len() ==> has_id(
                    questions@,
                    (#[trigger] answers@[t]).question_id,
                ),
            forall|t: int|
                0 <= t < memberships@.len() ==> has_id(
                    questions@,
                    (#[trigger] memberships@[t]).question_id,
                ),
        ensures
            s.wf(),
            s.questions@.len() == questions@.len(),
            forall|i: int|
                0 <= i < questions@.len() ==> {
                    let q = #[trigger] s.questions@[i];
                    let q0 = questions@[i];
                    &&& q.id == q0.id
                    &&& q.factory == q0.factory
                    &&& q.name == q0.name
                    &&& q.created_at == q0.created_at
                    &&& q.num_correct == q0.num_correct
                    &&& q.num_incorrect == q0.num_incorrect
                    &&& q.runner == q0.runner
                    &&& q.answers@ == answers_for(answers@, q0.id)
                },
            forall|k: int|
                0 <= k < s.sets@.len() ==> (#[trigger] s.sets@[k]).members@ == members_for(
                    memberships@,
                    s.sets@[k].name@,
                ),
            forall|t: int|
                0 <= t < memberships@.len() ==> s.has_set((#[trigger] memberships@[t]).name@),
            forall|k: int|
                0 <= k < s.sets@.len() ==> row_name_present(
                    memberships@,
                    (#[trigger] s.sets@[k]).name@,
                ),
            forall|k: int|
                0 <= k < s.factories@.len() ==> (#[trigger] s.factories@[k]).members@
                    == factory_ids(s.questions@, s.factories@[k].name@),
            forall|i: int|
                0 <= i < s.questions@.len() ==> s.has_factory(
                    (#[trigger] s.questions@[i]).factory@,
                ),
    {
        let ghost input_qs = questions@;
        let mut qs = questions;

        // Replay the answer history, oldest first.
        let mut k: usize = 0;
        while k < answers.len()
            invariant
                k <= answers@.len(),
                qs@.len() == input_qs.len(),
                forall|i: int, j: int|
                    0 <= i < j < qs@.len() ==> qs@[i].id != qs@[j].id,
                forall|t: int|
                    0 <= t < answers@.len() ==> has_id(
                        qs@,
                        (#[trigger] answers@[t]).question_id,
                    ),
                forall|i: int|
                    0 <= i < qs@.len() ==> {
                        let q = #[trigger] qs@[i];
                        let q0 = input_qs[i];
                        &&& q.id == q0.id
                        &&& q.factory == q0.factory
                        &&& q.name == q0.name
                        &&& q.created_at == q0.created_at
                        &&& q.num_correct == q0.num_correct
                        &&& q.num_incorrect == q0.num_incorrect
                        &&& q.runner == q0.runner
                        &&& q.answers@ == answers_for(answers@.take(k as int), q0.id)
                        &&& q.wf()
                    },
            decreases answers@.len() - k,
        {
            let a = answers[k];
            let idx = match find_question(&qs, a.question_id) {
                Option::Some(idx) => idx,
                Option::None => {
                    proof {
                        assert(false);
                    }
                    0
                },
            };
            let ghost old_qs = qs@;
            qs[idx].answers.push(a);
            proof {
                assert(qs@[idx as int].answers.len() == qs@[idx as int].answers@.len());
            }
            let mut st = qs[idx].state;
            st.apply(a.correct);
            qs[idx].state = st;
            proof {
                assert forall|i: int| 0 <= i < qs@.len() implies {
                    let q = #[trigger] qs@[i];
                    let q0 = input_qs[i];
                    &&& q.id == q0.id
                    &&& q.factory == q0.factory
                    &&& q.name == q0.name
                    &&& q.created_at == q0.created_at
                    &&& q.num_correct == q0.num_correct
                    &&& q.num_incorrect == q0.num_incorrect
                    &&& q.runner == q0.runner
                    &&& q.answers@ == answers_for(answers@.take(k + 1), q0.id)
                    &&& q.wf()
                } by {
                    assert(answers@.take(k + 1) =~= answers@.take(k as int).push(a));
                    lemma_answers_for_push(answers@.take(k as int), old_qs[i].id, a);
                    if i == idx as int {
                        assert(qs@[i].answers@ =~= old_qs[i].answers@.push(a));
                        assert(corrects(qs@[i].answers@) =~= corrects(old_qs[i].answers@).push(
                            a.correct,
                        ));
                        assert(corrects(qs@[i].answers@).drop_last() =~= corrects(
                            old_qs[i].answers@,
                        ));
                        assert(decay_fold(corrects(qs@[i].answers@)) == decay_next(
                            decay_fold(corrects(old_qs[i].answers@)),
                            a.correct,
                        ));
                    } else {
                        assert(qs@[i] == old_qs[i]);
                        assert(old_qs[i].id != a.question_id);
                    }
                }
                assert forall|t: int| 0 <= t < answers@.len() implies has_id(
                    qs@,
                    (#[trigger] answers@[t]).question_id,
                ) by {
                    let w = choose|w: int|
                        0 <= w < old_qs.len() && (#[trigger] old_qs[w]).id
                            == answers@[t].question_id;
                    assert(qs@[w].id == answers@[t].question_id);
                }
            }
            k = k + 1;
        }
        proof {
            assert(answers@.take(answers@.len() as int) =~= answers@);
        }

        // Group the set memberships by name, in row order.
        let mut sets: Vec<SetEntry> = Vec::new();
        let mut t: usize = 0;
        while t < memberships.len()
            invariant
                t <= memberships@.len(),
                forall|k: int, l: int|
                    0 <= k < l < sets@.len() ==> sets@[k].name@ != sets@[l].name@,
                forall|k: int|
                    0 <= k < sets@.len() ==> (#[trigger] sets@[k]).members@ == members_for(
                        memberships@.take(t as int),
                        sets@[k].name@,
                    ),
                forall|u: int|
                    0 <= u < t ==> has_name(sets@, (#[trigger] memberships@[u]).name@),
                forall|k: int|
                    0 <= k < sets@.len() ==> row_name_present(
                        memberships@.take(t as int),
                        (#[trigger] sets@[k]).name@,
                    ),
            decreases memberships@.len() - t,
        {
            let mname = &memberships[t].name;
            let qid = memberships[t].question_id;
            let ghost old_sets = sets@;
            let ghost mut widx: int = 0;
            match find_entry(&sets, mname.as_str()) {
                Option::Some(si) => {
                    sets[si].members.push(qid);
                    proof {
                        widx = si as int;
                    }
                },
                Option::None => {
                    let mut members: Vec<i64> = Vec::new();
                    members.push(qid);
                    sets.push(SetEntry { name: mname.clone(), members });
                    proof {
                        widx = sets@.len() - 1;
                    }
                },
            }
            proof {
                let m = memberships@[t as int];
                assert(memberships@.take(t + 1) =~= memberships@.take(t as int).push(m));
                assert forall|k: int| 0 <= k < sets@.len() implies (#[trigger] sets@[k]).members@
                    == members_for(memberships@.take(t + 1), sets@[k].name@) by {
                    lemma_members_for_push(memberships@.take(t as int), sets@[k].name@, m);
                    if k < old_sets.len() {
                        assert(sets@[k].name@ == old_sets[k].name@);
                        if m.name@ == sets@[k].name@ {
                            assert(sets@[k].members@ =~= old_sets[k].members@.push(qid));
                        } else {
                            assert(sets@[k].members@ == old_sets[k].members@);
                        }
                    } else {
                        assert(sets@[k].name@ == m.name@);
                        assert(members_for(memberships@.take(t as int), m.name@)
                            =~= Seq::<i64>::empty()) by {
                            if members_for(memberships@.take(t as int), m.name@).len() > 0 {
                                lemma_members_for_origin(
                                    memberships@.take(t as int),
                                    m.name@,
                                    0,
                                );
                                let u = choose|u: int|
                                    0 <= u < memberships@.take(t as int).len() && (
                                    #[trigger] memberships@.take(t as int)[u]).question_id
                                        == members_for(memberships@.take(t as int), m.name@)[0]
                                        && memberships@.take(t as int)[u].name@ == m.name@;
                                assert(exists|kk: int|
                                    0 <= kk < old_sets.len() && (#[trigger] old_sets[kk]).name@
                                        == m.name@);
                                assert(false);
                            }
                        }
                        assert(sets@[k].members@ =~= members_for(
                            memberships@.take(t as int),
                            m.name@,
                        ).push(qid));
                    }
                }
                assert forall|u: int| 0 <= u < t + 1 implies has_name(
                    sets@,
                    (#[trigger] memberships@[u]).name@,
                ) by {
                    if u < t {
                        let w = choose|w: int|
                            0 <= w < old_sets.len() && (#[trigger] old_sets[w]).name@
                                == memberships@[u].name@;
                        assert(sets@[w].name@ == memberships@[u].name@);
                    } else {
                        assert(sets@[widx].name@ == m.name@);
                    }
                }
                assert forall|k: int| 0 <= k < sets@.len() implies row_name_present(
                    memberships@.take(t + 1),
                    (#[trigger] sets@[k]).name@,
                ) by {
                    if k < old_sets.len() {
                        let w = choose|w: int|
                            0 <= w < memberships@.take(t as int).len() && (
                            #[trigger] memberships@.take(t as int)[w]).name@ == old_sets[k].name@;
                        assert(memberships@.take(t + 1)[w].name@ == sets@[k].name@);
                    } else {
                        assert(memberships@.take(t + 1)[t as int].name@ == sets@[k].name@);
                    }
                }
            }
            t = t + 1;
        }
        proof {
            assert(memberships@.take(memberships@.len() as int) =~= memberships@);
        }

        // Group the questions of each descriptor, in question order.
        let mut factories: Vec<SetEntry> = Vec::new();
        let mut t: usize = 0;
        while t < qs.len()
            invariant
                t <= qs@.len(),
                forall|k: int, l: int|
                    0 <= k < l < factories@.len() ==> factories@[k].name@ != factories@[l].name@,
                forall|k: int|
                    0 <= k < factories@.len() ==> (#[trigger] factories@[k]).members@
                        == factory_ids(qs@.take(t as int), factories@[k].name@),
                forall|u: int|
                    0 <= u < t ==> has_name(factories@, (#[trigger] qs@[u]).factory@),
                forall|k: int|
                    0 <= k < factories@.len() ==> factory_name_used(
                        qs@.take(t as int),
                        (#[trigger] factories@[k]).name@,
                    ),
            decreases qs@.len() - t,
        {
            let fname = &qs[t].factory;
            let qid = qs[t].id;
            let ghost old_facs = factories@;
            let ghost mut widx: int = 0;
            match find_entry(&factories, fname.as_str()) {
                Option::Some(fi) => {
                    factories[fi].members.push(qid);
                    proof {
                        widx = fi as int;
                    }
                },
                Option::None => {
                    let mut members: Vec<i64> = Vec::new();
                    members.push(qid);
                    factories.push(SetEntry { name: fname.clone(), members });
                    proof {
                        widx = factories@.len() - 1;
                    }
                },
            }
            proof {
                let q = qs@[t as int];
                assert(qs@.take(t + 1) =~= qs@.take(t as int).push(q));
                assert forall|k: int|
                    0 <= k < factories@.len() implies (#[trigger] factories@[k]).members@
                    == factory_ids(qs@.take(t + 1), factories@[k].name@) by {
                    lemma_factory_ids_push(qs@.take(t as int), factories@[k].name@, q);
                    if k < old_facs.len() {
                        assert(factories@[k].name@ == old_facs[k].name@);
                        if q.factory@ == factories@[k].name@ {
                            assert(factories@[k].members@ =~= old_facs[k].members@.push(qid));
                        } else {
                            assert(factories@[k].members@ == old_facs[k].members@);
                        }
                    } else {
                        assert(factories@[k].name@ == q.factory@);
                        assert(factory_ids(qs@.take(t as int), q.factory@)
                            =~= Seq::<i64>::empty()) by {
                            if factory_ids(qs@.take(t as int), q.factory@).len() > 0 {
                                lemma_factory_ids_origin(qs@.take(t as int), q.factory@, 0);
                                let u = choose|u: int|
                                    0 <= u < qs@.take(t as int).len() && (#[trigger] qs@.take(
                                        t as int,
                                    )[u]).id == factory_ids(qs@.take(t as int), q.factory@)[0]
                                        && qs@.take(t as int)[u].factory@ == q.factory@;
                                assert(exists|kk: int|
                                    0 <= kk < old_facs.len() && (#[trigger] old_facs[kk]).name@
                                        == q.factory@);
                                assert(false);
                            }
                        }
                        assert(factories@[k].members@ =~= factory_ids(
                            qs@.take(t as int),
                            q.factory@,
                        ).push(qid));
                    }
                }
                assert forall|u: int| 0 <= u < t + 1 implies has_name(
                    factories@,
                    (#[trigger] qs@[u]).factory@,
                ) by {
                    if u < t {
                        let w = choose|w: int|
                            0 <= w < old_facs.len() && (#[trigger] old_facs[w]).name@
                                == qs@[u].factory@;
                        assert(factories@[w].name@ == qs@[u].factory@);
                    } else {
                        assert(factories@[widx].name@ == q.factory@);
                    }
                }
                assert forall|k: int| 0 <= k < factories@.len() implies factory_name_used(
                    qs@.take(t + 1),
                    (#[trigger] factories@[k]).name@,
                ) by {
                    if k < old_facs.len() {
                        let w = choose|w: int|
                            0 <= w < qs@.take(t as int).len() && (#[trigger] qs@.take(
                                t as int,
                            )[w]).factory@ == old_facs[k].name@;
                        assert(qs@.take(t + 1)[w].factory@ == factories@[k].name@);
                    } else {
                        assert(qs@.take(t + 1)[t as int].factory@ == factories@[k].name@);
                    }
                }
            }
            t = t + 1;
        }
        proof {
            assert(qs@.take(qs@.len() as int) =~= qs@);
        }

        let s = Service { questions: qs, sets, factories };
        proof {
            assert forall|i: int, tt: int|
                0 <= i < s.sets@.len() && 0 <= tt < s.sets@[i].members@.len() implies s.has_question(
                #[trigger] s.sets@[i].members@[tt],
            ) by {
                lemma_members_for_origin(memberships@, s.sets@[i].name@, tt);
                let u = choose|u: int|
                    0 <= u < memberships@.len() && (#[trigger] memberships@[u]).question_id
                        == members_for(memberships@, s.sets@[i].name@)[tt] && memberships@[u].name@
                        == s.sets@[i].name@;
                let qi = choose|qi: int|
                    0 <= qi < input_qs.len() && (#[trigger] input_qs[qi]).id
                        == memberships@[u].question_id;
                assert(s.questions@[qi].id == memberships@[u].question_id);
            }
            assert forall|i: int, tt: int|
                0 <= i < s.factories@.len() && 0 <= tt
                    < s.factories@[i].members@.len() implies s.has_question(
                #[trigger] s.factories@[i].members@[tt],
            ) by {
                lemma_factory_ids_origin(s.questions@, s.factories@[i].name@, tt);
                let u = choose|u: int|
                    0 <= u < s.questions@.len() && (#[trigger] s.questions@[u]).id == factory_ids(
                        s.questions@,
                        s.factories@[i].name@,
                    )[tt] && s.questions@[u].factory@ == s.factories@[i].name@;
            }
        }
        s
    }
}


/// A saturating step of an advisory counter.
pub open spec fn bump(c: u32) -> u32 {
    if c < u32::MAX {
        (c + 1) as u32
    } else {
        c
    }
}

/// Whether the list holds the id.
fn contains_id(v: &Vec<i64>, id: i64) -> (r: bool)
    ensures
        r == v@.contains(id),
{
    let mut i: usize = 0;
    while i < v.len()
        invariant
            i <= v@.len(),
            forall|t: int| 0 <= t < i ==> v@[t] != id,
        decreases v@.len() - i,
    {
        if v[i] == id {
            return true;
        }
        i = i + 1;
    }
    false
}

impl Service {
    pub open spec fn practiced(self, id: i64) -> bool {
        self.q_at(id).answers@.len() > 0
    }

    pub open spec fn keep(self, id: i64, selection: Selection) -> bool {
        match selection {
            Selection::All => true,
            Selection::Practiced => self.practiced(id),
        }
    }

    /// The candidate ids left of a list after the pre-filter.
    pub open spec fn filtered(self, ids: Seq<i64>, selection: Selection) -> Seq<i64> {
        ids.filter(|id: i64| self.keep(id, selection))
    }

    /// The candidate ids of a set after the pre-filter.
    pub open spec fn candidates(self, set: Seq<char>, selection: Selection) -> Seq<i64> {
        self.filtered(self.set_members(set), selection)
    }

    pub open spec fn estimate_of(self, id: i64) -> Estimate {
        self.q_at(id).state.estimate_spec()
    }

    pub open spec fn ranked_of(self, ids: Seq<i64>) -> Seq<RankedItem> {
        ids.map_values(|id: i64| RankedItem { id, est: self.estimate_of(id) })
    }

    pub open spec fn last_answer_of(self, id: i64) -> Option<Answer> {
        if self.q_at(id).answers@.len() == 0 {
            Option::None
        } else {
            Option::Some(self.q_at(id).answers@.last())
        }
    }

    pub open spec fn last_time_of(self, id: i64) -> Option<i64> {
        match self.last_answer_of(id) {
            Option::None => Option::None,
            Option::Some(a) => Option::Some(a.time),
        }
    }

    pub open spec fn timed_of(self, ids: Seq<i64>) -> Seq<TimedItem> {
        ids.map_values(|id: i64| TimedItem { id, last: self.last_time_of(id) })
    }

    proof fn lemma_filtered_push(self, ids: Seq<i64>, selection: Selection, x: i64)
        ensures
            self.filtered(ids.push(x), selection) == if self.keep(x, selection) {
                self.filtered(ids, selection).push(x)
            } else {
                self.filtered(ids, selection)
            },
    {
        reveal(Seq::filter);
        assert(ids.push(x).drop_last() =~= ids);
        assert(ids.push(x).last() == x);
    }

    proof fn lemma_filtered_len(self, ids: Seq<i64>, selection: Selection)
        ensures
            self.filtered(ids, selection).len() <= ids.len(),
        decreases ids.len(),
    {
        reveal(Seq::filter);
        if ids.len() > 0 {
            self.lemma_filtered_len(ids.drop_last(), selection);
            assert(ids =~= ids.drop_last().push(ids.last()));
            self.lemma_filtered_push(ids.drop_last(), selection, ids.last());
        }
    }

    /// Everything the filter keeps came from the candidate list.
    proof fn lemma_filtered_origin(self, ids: Seq<i64>, selection: Selection, t: int)
        requires
            0 <= t < self.filtered(ids, selection).len(),
        ensures
            ids.contains(self.filtered(ids, selection)[t]),
        decreases ids.len(),
    {
        reveal(Seq::filter);
        if ids.len() > 0 {
            let s0 = ids.drop_last();
            assert(ids =~= s0.push(ids.last()));
            self.lemma_filtered_push(s0, selection, ids.last());
            if t < self.filtered(s0, selection).len() {
                self.lemma_filtered_origin(s0, selection, t);
                let w = choose|w: int| 0 <= w < s0.len() && s0[w] == self.filtered(s0, selection)[t];
                assert(ids[w] == self.filtered(ids, selection)[t]);
            } else {
                assert(ids[ids.len() - 1] == self.filtered(ids, selection)[t]);
            }
        }
    }

    pub fn contains_question(&self, id: i64) -> (r: bool)
        ensures
            r == self.has_question(id),
    {
        match find_question(&self.questions, id) {
            Option::Some(_) => true,
            Option::None => false,
        }
    }

    pub fn contains_set(&self, name: &str) -> (r: bool)
        ensures
            r == self.has_set(name@),
    {
        match find_entry(&self.sets, name) {
            Option::Some(_) => true,
            Option::None => false,
        }
    }

    pub fn contains_factory(&self, name: &str) -> (r: bool)
        ensures
            r == self.has_factory(name@),
    {
        match find_entry(&self.factories, name) {
            Option::Some(_) => true,
            Option::None => false,
        }
    }

    /// The question carrying `id`.
    pub fn get(&self, id: i64) -> (r: &Question)
        requires
            self.wf(),
            self.has_question(id),
        ensures
            *r == self.q_at(id),
    {
        match find_question(&self.questions, id) {
            Option::Some(i) => {
                proof {
                    self.lemma_q_at_index(i as int);
                }
                &self.questions[i]
            },
            Option::None => {
                proof {
                    assert(false);
                }
                &self.questions[0]
            },
        }
    }

    /// The most recent recorded answer of the question, if any.
    pub fn last_answer(&self, id: i64) -> (r: Option<Answer>)
        requires
            self.wf(),
            self.has_question(id),
        ensures
            r == self.last_answer_of(id),
    {
        let q = self.get(id);
        if q.answers.len() == 0 {
            Option::None
        } else {
            Option::Some(q.answers[q.answers.len() - 1])
        }
    }

    /// The item list of a set.
    pub fn get_set(&self, set: &str) -> (r: &Vec<i64>)
        requires
            self.wf(),
            self.has_set(set@),
        ensures
            r@ == self.set_members(set@),
    {
        match find_entry(&self.sets, set) {
            Option::Some(i) => {
                proof {
                    lemma_entry_members_at(self.sets@, i as int);
                }
                &self.sets[i].members
            },
            Option::None => {
                proof {
                    assert(false);
                }
                &self.sets[0].members
            },
        }
    }

    /// The items a descriptor owns.
    pub fn get_factory(&self, factory: &str) -> (r: &Vec<i64>)
        requires
            self.wf(),
            self.has_factory(factory@),
        ensures
            r@ == self.factory_members(factory@),
    {
        match find_entry(&self.factories, factory) {
            Option::Some(i) => {
                proof {
                    lemma_entry_members_at(self.factories@, i as int);
                }
                &self.factories[i].members
            },
            Option::None => {
                proof {
                    assert(false);
                }
                &self.factories[0].members
            },
        }
    }

    /// The names of all known sets, in their creation order.
    pub fn get_sets(&self) -> (r: Vec<String>)
        ensures
            r@.len() == self.sets@.len(),
            forall|i: int| 0 <= i < r@.len() ==> (#[trigger] r@[i])@ == self.sets@[i].name@,
    {
        let mut r: Vec<String> = Vec::new();
        let mut i: usize = 0;
        while i < self.sets.len()
            invariant
                i <= self.sets@.len(),
                r@.len() == i,
                forall|k: int| 0 <= k < i ==> (#[trigger] r@[k])@ == self.sets@[k].name@,
            decreases self.sets@.len() - i,
        {
            r.push(self.sets[i].name.clone());
            i = i + 1;
        }
        r
    }

    /// Restricts a candidate list to the chosen pre-filter.
    pub fn filter_questions(&self, ids: &Vec<i64>, selection: Selection) -> (res: Vec<i64>)
        requires
            self.wf(),
            forall|t: int| 0 <= t < ids@.len() ==> self.has_question(#[trigger] ids@[t]),
        ensures
            res@ == self.filtered(ids@, selection),
    {
        let mut res: Vec<i64> = Vec::new();
        let mut i: usize = 0;
        proof {
            reveal(Seq::filter);
            assert(ids@.take(0) =~= Seq::<i64>::empty());
            assert(res@ == self.filtered(ids@.take(0), selection));
        }
        while i < ids.len()
            invariant
                self.wf(),
                i <= ids@.len(),
                forall|t: int| 0 <= t < ids@.len() ==> self.has_question(#[trigger] ids@[t]),
                res@ == self.filtered(ids@.take(i as int), selection),
            decreases ids@.len() - i,
        {
            let id = ids[i];
            let keep = match selection {
                Selection::All => true,
                Selection::Practiced => {
                    let q = self.get(id);
                    q.answers.len() > 0
                },
            };
            proof {
                assert(keep == self.keep(id, selection));
                assert(ids@.take(i + 1) =~= ids@.take(i as int).push(id));
                self.lemma_filtered_push(ids@.take(i as int), selection, id);
            }
            if keep {
                res.push(id);
            }
            i = i + 1;
        }
        proof {
            assert(ids@.take(ids@.len() as int) =~= ids@);
        }
        res
    }

    /// The mastery snapshot of a candidate list, in order.
    fn ranked_items(&self, ids: &Vec<i64>) -> (items: Vec<RankedItem>)
        requires
            self.wf(),
            forall|t: int| 0 <= t < ids@.len() ==> self.has_question(#[trigger] ids@[t]),
        ensures
            items@ == self.ranked_of(ids@),
            wf_items(items@),
    {
        let mut items: Vec<RankedItem> = Vec::new();
        let mut i: usize = 0;
        while i < ids.len()
            invariant
                self.wf(),
                i <= ids@.len(),
                forall|t: int| 0 <= t < ids@.len() ==> self.has_question(#[trigger] ids@[t]),
                items@.len() == i,
                forall|k: int|
                    0 <= k < i ==> #[trigger] items@[k] == (RankedItem {
                        id: ids@[k],
                        est: self.estimate_of(ids@[k]),
                    }),
                wf_items(items@),
            decreases ids@.len() - i,
        {
            let id = ids[i];
            let q = self.get(id);
            let est = q.state.estimate();
            items.push(RankedItem { id, est });
            i = i + 1;
        }
        proof {
            assert(items@ =~= self.ranked_of(ids@));
        }
        items
    }

    /// The last-answer times of a candidate list, in order.
    fn timed_items(&self, ids: &Vec<i64>) -> (items: Vec<TimedItem>)
        requires
            self.wf(),
            forall|t: int| 0 <= t < ids@.len() ==> self.has_question(#[trigger] ids@[t]),
        ensures
            items@ == self.timed_of(ids@),
    {
        let mut items: Vec<TimedItem> = Vec::new();
        let mut i: usize = 0;
        while i < ids.len()
            invariant
                self.wf(),
                i <= ids@.len(),
                forall|t: int| 0 <= t < ids@.len() ==> self.has_question(#[trigger] ids@[t]),
                items@.len() == i,
                forall|k: int|
                    0 <= k < i ==> #[trigger] items@[k] == (TimedItem {
                        id: ids@[k],
                        last: self.last_time_of(ids@[k]),
                    }),
            decreases ids@.len() - i,
        {
            let id = ids[i];
            let last = match self.last_answer(id) {
                Option::None => Option::None,
                Option::Some(a) => Option::Some(a.time),
            };
            items.push(TimedItem { id, last });
            i = i + 1;
        }
        proof {
            assert(items@ =~= self.timed_of(ids@));
        }
        items
    }

    /// The filtered candidates of a set, with registration facts.
    fn set_candidates(&self, set: &str, selection: Selection) -> (res: Vec<i64>)
        requires
            self.wf(),
            self.has_set(set@),
        ensures
            res@ == self.candidates(set@, selection),
            forall|t: int| 0 <= t < res@.len() ==> self.has_question(#[trigger] res@[t]),
    {
        let members = self.get_set(set);
        proof {
            let i = choose|i: int|
                0 <= i < self.sets@.len() && (#[trigger] self.sets@[i]).name@ == set@;
            assert(members@ == self.sets@[i].members@);
        }
        let res = self.filter_questions(members, selection);
        proof {
            assert forall|t: int| 0 <= t < res@.len() implies self.has_question(
                #[trigger] res@[t],
            ) by {
                self.lemma_filtered_origin(members@, selection, t);
            }
        }
        res
    }

    /// Bottom-K: the `min(num, candidates)` weakest items of the set,
    /// ascending by mastery estimate, ties in candidate order.
    pub fn get_bottom_selection(&self, set: &str, num: usize, selection: Selection) -> (res: Vec<
        i64,
    >)
        requires
            self.wf(),
            self.has_set(set@),
        ensures
            res@.len() == min_int(num as int, self.candidates(set@, selection).len() as int),
            ranked_prefix_post(
                entries_of(self.ranked_of(self.candidates(set@, selection))),
                num as int,
                res@,
            ),
    {
        let cands = self.set_candidates(set, selection);
        let items = self.ranked_items(&cands);
        bottom_k(&items, num)
    }

    /// Weighted-Random-Without-Replacement over the set's candidates:
    /// `min(num, candidates)` distinct candidate ids; with `num` at
    /// least the candidate count, all of them.
    pub fn get_weighted_random_selection(
        &self,
        set: &str,
        num: usize,
        selection: Selection,
    ) -> (res: Vec<i64>)
        requires
            self.wf(),
            self.has_set(set@),
        ensures
            res@.len() == min_int(num as int, self.candidates(set@, selection).len() as int),
            res@.to_multiset().subset_of(self.candidates(set@, selection).to_multiset()),
            num >= self.candidates(set@, selection).len() ==> res@.to_multiset()
                == self.candidates(set@, selection).to_multiset(),
    {
        let cands = self.set_candidates(set, selection);
        let items = self.ranked_items(&cands);
        let res = weighted_random(&items, num);
        proof {
            assert(crate::selection::item_ids(items@) =~= cands@);
        }
        res
    }

    /// Uniform-Random-Without-Replacement over the set's candidates:
    /// a uniformly shuffled choice of `min(num, candidates)` ids.
    pub fn get_uniform_random_selection(
        &self,
        set: &str,
        num: usize,
        selection: Selection,
    ) -> (res: Vec<i64>)
        requires
            self.wf(),
            self.has_set(set@),
        ensures
            res@.len() == min_int(num as int, self.candidates(set@, selection).len() as int),
            res@.to_multiset().subset_of(self.candidates(set@, selection).to_multiset()),
            num >= self.candidates(set@, selection).len() ==> res@.to_multiset()
                == self.candidates(set@, selection).to_multiset(),
    {
        let cands = self.set_candidates(set, selection);
        uniform_random(&cands, num)
    }

    /// Oldest-Practiced-First: the `min(num, candidates)` least recently
    /// answered candidates, never-answered ones first.
    pub fn get_oldest_answer(&self, set: &str, num: usize, selection: Selection) -> (res: Vec<i64>)
        requires
            self.wf(),
            self.has_set(set@),
        ensures
            res@.len() == min_int(num as int, self.candidates(set@, selection).len() as int),
            ranked_prefix_post(
                time_entries_of(self.timed_of(self.candidates(set@, selection))),
                num as int,
                res@,
            ),
    {
        let cands = self.set_candidates(set, selection);
        let items = self.timed_items(&cands);
        oldest_first(&items, num)
    }

    /// How many candidates the set offers under the pre-filter.
    pub fn get_set_size(&self, name: &str, selection: Selection) -> (r: usize)
        requires
            self.wf(),
            self.has_set(name@),
        ensures
            r == self.candidates(name@, selection).len(),
    {
        let cands = self.set_candidates(name, selection);
        cands.len()
    }

    /// Records one answer: the event is appended to the question's
    /// history, the decayed counters take one step, and the advisory
    /// counters bump; the new estimate is returned.
    pub fn add_answer(&mut self, id: i64, correct: bool, time: i64) -> (est: Estimate)
        requires
            old(self).wf(),
            old(self).has_question(id),
        ensures
            final(self).wf(),
            final(self).sets == old(self).sets,
            final(self).factories == old(self).factories,
            final(self).questions@.len() == old(self).questions@.len(),
            forall|i: int|
                0 <= i < old(self).questions@.len() ==> {
                    let q0 = old(self).questions@[i];
                    let q = #[trigger] final(self).questions@[i];
                    if q0.id == id {
                        &&& q.answers@ == q0.answers@.push(
                            Answer { question_id: id, time, correct },
                        )
                        &&& q.state.model() == decay_next(q0.state.model(), correct)
                        &&& q.num_correct == (if correct {
                            bump(q0.num_correct)
                        } else {
                            q0.num_correct
                        })
                        &&& q.num_incorrect == (if correct {
                            q0.num_incorrect
                        } else {
                            bump(q0.num_incorrect)
                        })
                        &&& q.id == q0.id
                        &&& q.factory == q0.factory
                        &&& q.name == q0.name
                        &&& q.created_at == q0.created_at
                        &&& q.runner == q0.runner
                    } else {
                        q == q0
                    }
                },
            est == final(self).q_at(id).state.estimate_spec(),
    {
        let ghost old_qs = self.questions@;
        let idx = match find_question(&self.questions, id) {
            Option::Some(idx) => idx,
            Option::None => {
                proof {
                    assert(false);
                }
                0
            },
        };
        let a = Answer { question_id: id, time, correct };
        self.questions[idx].answers.push(a);
        proof {
            assert(self.questions@[idx as int].answers.len() == self.questions@[idx as int].answers@.len());
        }
        let mut st = self.questions[idx].state;
        let est = st.apply(correct);
        self.questions[idx].state = st;
        if correct {
            let c = self.questions[idx].num_correct;
            self.questions[idx].num_correct = if c < u32::MAX {
                c + 1
            } else {
                c
            };
        } else {
            let c = self.questions[idx].num_incorrect;
            self.questions[idx].num_incorrect = if c < u32::MAX {
                c + 1
            } else {
                c
            };
        }
        proof {
            let i = idx as int;
            assert(corrects(self.questions@[i].answers@) =~= corrects(old_qs[i].answers@).push(
                correct,
            ));
            assert(corrects(self.questions@[i].answers@).drop_last() =~= corrects(
                old_qs[i].answers@,
            ));
            assert(decay_fold(corrects(self.questions@[i].answers@)) == decay_next(
                decay_fold(corrects(old_qs[i].answers@)),
                correct,
            ));
            assert(self.questions@[i].wf());
            assert forall|k: int| 0 <= k < self.questions@.len() implies (
            #[trigger] self.questions@[k]).wf() by {
                if k != i {
                    assert(self.questions@[k] == old_qs[k]);
                }
            }
            assert forall|qid: i64| has_id(old_qs, qid) implies has_id(self.questions@, qid) by {
                let w = choose|w: int| 0 <= w < old_qs.len() && (#[trigger] old_qs[w]).id == qid;
                assert(self.questions@[w].id == qid);
            }
            assert(self.wf());
            self.lemma_q_at_index(i);
        }
        est
    }

    /// Puts the question into the named set, creating the set if it is
    /// new; reports whether anything changed.  An id already present is
    /// left alone.
    pub fn add_question_in_set(&mut self, id: i64, set: &str) -> (added: bool)
        requires
            old(self).wf(),
            old(self).has_question(id),
        ensures
            final(self).wf(),
            final(self).questions == old(self).questions,
            final(self).factories == old(self).factories,
            added == !(old(self).has_set(set@) && old(self).set_members(set@).contains(id)),
            !added ==> *final(self) == *old(self),
            final(self).has_set(set@),
            added && old(self).has_set(set@) ==> {
                &&& final(self).sets@.len() == old(self).sets@.len()
                &&& forall|k: int|
                    0 <= k < old(self).sets@.len() ==> {
                        let e0 = old(self).sets@[k];
                        let e = #[trigger] final(self).sets@[k];
                        &&& e.name == e0.name
                        &&& e.members@ == (if e0.name@ == set@ {
                            e0.members@.push(id)
                        } else {
                            e0.members@
                        })
                    }
            },
            added && !old(self).has_set(set@) ==> {
                &&& final(self).sets@.len() == old(self).sets@.len() + 1
                &&& forall|k: int|
                    0 <= k < old(self).sets@.len() ==> #[trigger] final(self).sets@[k] == old(
                        self,
                    ).sets@[k]
                &&& final(self).sets@.last().name@ == set@
                &&& final(self).sets@.last().members@ == seq![id]
            },
            final(self).set_members(set@) == (if old(self).has_set(set@) {
                if old(self).set_members(set@).contains(id) {
                    old(self).set_members(set@)
                } else {
                    old(self).set_members(set@).push(id)
                }
            } else {
                seq![id]
            }),
    {
        let ghost old_self = *self;
        match find_entry(&self.sets, set) {
            Option::Some(si) => {
                proof {
                    lemma_entry_members_at(self.sets@, si as int);
                }
                if contains_id(&self.sets[si].members, id) {
                    proof {
                        lemma_entry_members_at(self.sets@, si as int);
                    }
                    false
                } else {
                    self.sets[si].members.push(id);
                    proof {
                        assert forall|qid2: i64|
                            has_id(old_self.questions@, qid2) implies has_id(
                            self.questions@,
                            qid2,
                        ) by {}
                        assert(self.wf());
                        lemma_entry_members_at(self.sets@, si as int);
                    }
                    true
                }
            },
            Option::None => {
                let mut members: Vec<i64> = Vec::new();
                members.push(id);
                self.sets.push(SetEntry { name: make_string(set), members });
                proof {
                    assert(self.sets@.last().name@ == set@);
                    assert forall|k: int, l: int|
                        0 <= k < l < self.sets@.len() implies self.sets@[k].name@
                        != self.sets@[l].name@ by {
                        if l == self.sets@.len() - 1 {
                            assert(old_self.sets@[k].name@ != set@);
                        }
                    }
                    assert(self.wf());
                    lemma_entry_members_at(self.sets@, self.sets@.len() - 1);
                }
                true
            },
        }
    }
}

/// The set name as an owned string.
fn make_string(s: &str) -> (r: String)
    ensures
        r@ == s@,
{
    s.to_owned()
}

} // verus!

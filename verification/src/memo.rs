//! Remembered answers. The engine answers each question afresh; a cache
//! beside it keeps the answers that were given, each under its key, and
//! gives them again.

use vstd::prelude::*;
use crate::aliases::Aliases;
use crate::order::{sort_places, sorted};
use crate::place::{clone_places, insert_place, Place, PlaceView, views};

verus! {

/// One remembered answer.
#[derive(Debug)]
pub struct Memo {
    /// The place that was asked about, as it is looked up.
    pub key: Place,
    /// For a question about reachable values: whether it was shallow.
    pub shallow: bool,
    /// The answer.
    pub value: Vec<Place>,
}

/// The mathematical value of a [`Memo`].
pub struct MemoView {
    pub key: PlaceView,
    pub shallow: bool,
    pub value: Seq<PlaceView>,
}

impl View for Memo {
    type V = MemoView;

    open spec fn view(&self) -> MemoView {
        MemoView { key: self.key@, shallow: self.shallow, value: views(self.value@) }
    }
}

/// The values of a table of answers.
pub open spec fn table(memos: Seq<Memo>) -> Seq<MemoView> {
    memos.map_values(|m: Memo| m@)
}

/// The position, at or after `from`, of the first answer under this key.
pub open spec fn find(t: Seq<MemoView>, key: PlaceView, shallow: bool, from: int) -> Option<int>
    decreases t.len() - from,
{
    if from < 0 || from >= t.len() {
        None
    } else if t[from].key == key && t[from].shallow == shallow {
        Some(from)
    } else {
        find(t, key, shallow, from + 1)
    }
}

/// The answers that were given: alias sets under the normalized place,
/// conflict sets under the place, reachable values under the place and the
/// depth. An answer is put in once and never changed.
#[derive(Debug)]
pub struct QueryCache {
    pub aliases: Vec<Memo>,
    pub conflicts: Vec<Memo>,
    pub reachable: Vec<Memo>,
}

/// Whether `value` is the alias set of `asked`, in rising order.
pub open spec fn alias_answer(engine: &Aliases, asked: PlaceView, value: Seq<PlaceView>) -> bool {
    &&& sorted(value)
    &&& forall|x: PlaceView| #[trigger] value.contains(x) <==> engine.is_alias(asked, x)
}

/// What a question for the aliases of `place` does to the table of alias
/// sets and what it returns: the answer under the normalized place if there
/// is one; else the alias set of `place`, which is put into the table.
pub open spec fn alias_step(
    engine: &Aliases,
    before: Seq<MemoView>,
    after: Seq<MemoView>,
    place: PlaceView,
    answer: Seq<PlaceView>,
) -> bool {
    match find(before, place.normalized(), false, 0) {
        Some(i) => answer == before[i].value && after == before,
        None => alias_answer(engine, place, answer) && after == before.push(
            MemoView { key: place.normalized(), shallow: false, value: answer },
        ),
    }
}

/// Whether `value` holds, in rising order, what overlaps one of `found`.
pub open spec fn conflict_from(engine: &Aliases, found: Seq<PlaceView>, value: Seq<PlaceView>) -> bool {
    &&& sorted(value)
    &&& forall|x: PlaceView| #[trigger]
        value.contains(x) <==> exists|j: int| 0 <= j < found.len() && engine.overlaps(found[j], x)
}

/// Whether the table of alias sets goes through `states` as the aliases of
/// each of `targets` are asked for in turn, with `answers` coming back.
pub open spec fn alias_steps(
    engine: &Aliases,
    states: Seq<Seq<MemoView>>,
    answers: Seq<Seq<PlaceView>>,
    targets: Seq<PlaceView>,
) -> bool {
    &&& states.len() == targets.len() + 1
    &&& answers.len() == targets.len()
    &&& forall|k: int|
        #![trigger answers[k]]
        0 <= k < targets.len() ==> alias_step(
            engine,
            states[k],
            states[k + 1],
            targets[k].deref(),
            answers[k],
        )
}

/// Whether `value` holds, in rising order, `place` and what the answers
/// hold, as far as it is concrete storage.
pub open spec fn reach_from(
    engine: &Aliases,
    place: PlaceView,
    answers: Seq<Seq<PlaceView>>,
    value: Seq<PlaceView>,
) -> bool {
    &&& sorted(value)
    &&& forall|x: PlaceView| #[trigger]
        value.contains(x) <==> (engine.body.direct(x) && (x == place || exists|k: int|
            0 <= k < answers.len() && (#[trigger] answers[k]).contains(x)))
}

/// Whether every alias set of the table is the alias set of a place with
/// the key of the entry.
pub open spec fn sound_table(engine: &Aliases, t: Seq<MemoView>) -> bool {
    forall|i: int| 0 <= i < t.len() ==> answers_for_key(engine, #[trigger] t[i])
}

/// Whether the answer is the alias set of a place with this key.
pub open spec fn answers_for_key(engine: &Aliases, memo: MemoView) -> bool {
    exists|asked: PlaceView| asked.normalized() == memo.key && alias_answer(engine, asked, memo.value)
}

proof fn lemma_find(t: Seq<MemoView>, key: PlaceView, shallow: bool, from: int)
    requires
        0 <= from,
    ensures
        match find(t, key, shallow, from) {
            Some(i) => from <= i < t.len() && t[i].key == key && t[i].shallow == shallow,
            None => forall|i: int|
                from <= i < t.len() ==> !((#[trigger] t[i]).key == key && t[i].shallow == shallow),
        },
    decreases t.len() - from,
{
    if from < t.len() && !(t[from].key == key && t[from].shallow == shallow) {
        lemma_find(t, key, shallow, from + 1);
    }
}

/// What a remembered alias set means. In a table whose entries are alias
/// sets of places with their key, a question is answered with the alias set
/// of a place that is looked up as the asked place is, and the table stays
/// such a table. The place is the asked one where nothing was remembered
/// under its key.
pub proof fn lemma_alias_step(
    engine: &Aliases,
    before: Seq<MemoView>,
    after: Seq<MemoView>,
    place: PlaceView,
    answer: Seq<PlaceView>,
)
    requires
        sound_table(engine, before),
        alias_step(engine, before, after, place, answer),
    ensures
        sound_table(engine, after),
        exists|asked: PlaceView|
            asked.normalized() == place.normalized() && alias_answer(engine, asked, answer),
        find(before, place.normalized(), false, 0) is None ==> alias_answer(engine, place, answer),
{
    lemma_find(before, place.normalized(), false, 0);
    match find(before, place.normalized(), false, 0) {
        Some(i) => {
            assert(answers_for_key(engine, before[i]));
            let asked = choose|asked: PlaceView|
                asked.normalized() == before[i].key && alias_answer(engine, asked, before[i].value);
            assert(asked.normalized() == place.normalized() && alias_answer(engine, asked, answer));
        },
        None => {
            assert(place.normalized() == place.normalized() && alias_answer(engine, place, answer));
            assert forall|i: int| 0 <= i < after.len() implies answers_for_key(
                engine,
                #[trigger] after[i],
            ) by {
                if i < before.len() {
                    assert(after[i] == before[i]);
                    assert(answers_for_key(engine, before[i]));
                } else {
                    assert(place.normalized() == after[i].key && alias_answer(
                        engine,
                        place,
                        after[i].value,
                    ));
                }
            }
        },
    }
}

/// The position of the answer under this key, if there is one.
fn lookup(memos: &Vec<Memo>, key: &Place, shallow: bool) -> (r: Option<usize>)
    ensures
        match r {
            Some(i) => find(table(memos@), key@, shallow, 0) == Some(i as int) && i < memos@.len(),
            None => find(table(memos@), key@, shallow, 0) is None,
        },
{
    let mut i: usize = 0;
    while i < memos.len()
        invariant
            i <= memos.len(),
            find(table(memos@), key@, shallow, 0) == find(table(memos@), key@, shallow, i as int),
        decreases memos.len() - i,
    {
        assert(table(memos@)[i as int] == memos@[i as int]@);
        if memos[i].shallow == shallow && memos[i].key.equals(key) {
            return Some(i);
        }
        i += 1;
    }
    None
}

impl QueryCache {
    /// A cache without answers.
    pub fn new() -> (r: QueryCache)
        ensures
            table(r.aliases@) == Seq::<MemoView>::empty(),
            table(r.conflicts@) == Seq::<MemoView>::empty(),
            table(r.reachable@) == Seq::<MemoView>::empty(),
    {
        let r = QueryCache { aliases: Vec::new(), conflicts: Vec::new(), reachable: Vec::new() };
        assert(table(r.aliases@) =~= Seq::<MemoView>::empty());
        assert(table(r.conflicts@) =~= Seq::<MemoView>::empty());
        assert(table(r.reachable@) =~= Seq::<MemoView>::empty());
        r
    }

    /// The aliases of `place`, remembered under its normalized form: the
    /// answer that was given for that key, or else the alias set of `place`,
    /// which is then remembered.
    pub fn aliases(&mut self, engine: &Aliases, place: &Place) -> (r: Vec<Place>)
        ensures
            alias_step(
                engine,
                table(old(self).aliases@),
                table(final(self).aliases@),
                place@,
                views(r@),
            ),
            table(final(self).conflicts@) == table(old(self).conflicts@),
            table(final(self).reachable@) == table(old(self).reachable@),
    {
        let key = place.normalize();
        match lookup(&self.aliases, &key, false) {
            Some(i) => {
                assert(table(self.aliases@)[i as int] == self.aliases@[i as int]@);
                clone_places(&self.aliases[i].value)
            },
            None => {
                let value = engine.aliases(place);
                let r = clone_places(&value);
                let ghost before = table(self.aliases@);
                let memo = Memo { key, shallow: false, value };
                self.aliases.push(memo);
                assert(table(self.aliases@) =~= before.push(memo@));
                r
            },
        }
    }

    /// The conflicts of `place`, remembered under `place`: the answer that
    /// was given for it, or else what overlaps the aliases of `place` as
    /// this cache gives them, which is then remembered.
    pub fn conflicts(&mut self, engine: &Aliases, place: &Place) -> (r: Vec<Place>)
        ensures
            match find(table(old(self).conflicts@), place@, false, 0) {
                Some(i) => views(r@) == table(old(self).conflicts@)[i].value && table(
                    final(self).conflicts@,
                ) == table(old(self).conflicts@) && table(final(self).aliases@) == table(
                    old(self).aliases@,
                ),
                None => table(final(self).conflicts@) == table(old(self).conflicts@).push(
                    MemoView { key: place@, shallow: false, value: views(r@) },
                ) && exists|found: Seq<PlaceView>|
                    alias_step(
                        engine,
                        table(old(self).aliases@),
                        table(final(self).aliases@),
                        place@,
                        found,
                    ) && conflict_from(engine, found, views(r@)),
            },
            table(final(self).reachable@) == table(old(self).reachable@),
    {
        match lookup(&self.conflicts, place, false) {
            Some(i) => {
                assert(table(self.conflicts@)[i as int] == self.conflicts@[i as int]@);
                clone_places(&self.conflicts[i].value)
            },
            None => {
                let ghost aliases_before = table(self.aliases@);
                let found = self.aliases(engine, place);
                let value = engine.overlapping(&found);
                let r = clone_places(&value);
                let ghost before = table(self.conflicts@);
                let memo = Memo { key: place.clone(), shallow: false, value };
                self.conflicts.push(memo);
                proof {
                    assert(table(self.conflicts@) =~= before.push(memo@));
                    assert(alias_step(
                        engine,
                        aliases_before,
                        table(self.aliases@),
                        place@,
                        views(found@),
                    ) && conflict_from(engine, views(found@), views(r@)));
                }
                r
            },
        }
    }

    /// The values reachable from `place`, remembered under `place` and the
    /// depth: the answer that was given for them, or else `place` and the
    /// aliases, as this cache gives them, of what each pointer inside
    /// `place` points to, as far as they are concrete storage; that answer
    /// is then remembered.
    pub fn reachable_values(&mut self, engine: &Aliases, place: &Place, shallow: bool) -> (r: Vec<Place>)
        ensures
            match find(table(old(self).reachable@), place@, shallow, 0) {
                Some(i) => views(r@) == table(old(self).reachable@)[i].value && table(
                    final(self).reachable@,
                ) == table(old(self).reachable@) && table(final(self).aliases@) == table(
                    old(self).aliases@,
                ),
                None => table(final(self).reachable@) == table(old(self).reachable@).push(
                    MemoView { key: place@, shallow, value: views(r@) },
                ) && exists|states: Seq<Seq<MemoView>>, answers: Seq<Seq<PlaceView>>|
                    alias_steps(
                        engine,
                        states,
                        answers,
                        engine.body.pointer_places(place@, shallow),
                    ) && states[0] == table(old(self).aliases@) && states.last() == table(
                        final(self).aliases@,
                    ) && reach_from(engine, place@, answers, views(r@)),
            },
            table(final(self).conflicts@) == table(old(self).conflicts@),
    {
        match lookup(&self.reachable, place, shallow) {
            Some(i) => {
                assert(table(self.reachable@)[i as int] == self.reachable@[i as int]@);
                clone_places(&self.reachable[i].value)
            },
            None => {
                let pointers = engine.body.interior_pointers(place, shallow);
                let ghost targets = engine.body.pointer_places(place@, shallow);
                let ghost mut states: Seq<Seq<MemoView>> = seq![table(self.aliases@)];
                let ghost mut answers: Seq<Seq<PlaceView>> = Seq::empty();
                let ghost conflicts0 = table(self.conflicts@);
                let ghost reachable0 = table(self.reachable@);
                let ghost aliases0 = table(self.aliases@);
                let mut found_all: Vec<Place> = Vec::new();
                assert(views(found_all@) =~= Seq::<PlaceView>::empty());
                let mut i: usize = 0;
                while i < pointers.len()
                    invariant
                        i <= pointers.len(),
                        targets == views(pointers@),
                        states.len() == i + 1,
                        answers.len() == i,
                        states[0] == aliases0,
                        states.last() == table(self.aliases@),
                        table(self.conflicts@) == conflicts0,
                        table(self.reachable@) == reachable0,
                        forall|k: int|
                            #![trigger answers[k]]
                            0 <= k < i ==> alias_step(
                                engine,
                                states[k],
                                states[k + 1],
                                targets[k].deref(),
                                answers[k],
                            ),
                        views(found_all@).no_duplicates(),
                        forall|x: PlaceView| #[trigger]
                            views(found_all@).contains(x) <==> (engine.body.direct(x)
                                && exists|k: int|
                                0 <= k < i && (#[trigger] answers[k]).contains(x)),
                    decreases pointers.len() - i,
                {
                    let target = pointers[i].deref_place();
                    let found = self.aliases(engine, &target);
                    let ghost before = views(found_all@);
                    let ghost old_states = states;
                    let ghost old_answers = answers;
                    engine.add_direct(&found, &mut found_all);
                    proof {
                        assert(targets[i as int] == pointers@[i as int]@);
                        states = states.push(table(self.aliases@));
                        answers = answers.push(views(found@));
                        assert forall|k: int| #![trigger answers[k]] 0 <= k < i + 1 implies alias_step(
                            engine,
                            states[k],
                            states[k + 1],
                            targets[k].deref(),
                            answers[k],
                        ) by {
                            if k < i {
                                assert(answers[k] == old_answers[k]);
                                assert(states[k] == old_states[k]);
                                assert(states[k + 1] == old_states[k + 1]);
                                assert(alias_step(
                                    engine,
                                    old_states[k],
                                    old_states[k + 1],
                                    targets[k].deref(),
                                    old_answers[k],
                                ));
                            } else {
                                assert(states[k] == old_states.last());
                            }
                        }
                        assert forall|x: PlaceView| #[trigger]
                            views(found_all@).contains(x) <==> (engine.body.direct(x)
                                && exists|k: int|
                                0 <= k < i + 1 && (#[trigger] answers[k]).contains(x)) by {
                            if exists|k: int| 0 <= k < i && (#[trigger] old_answers[k]).contains(x) {
                                let k = choose|k: int|
                                    0 <= k < i && (#[trigger] old_answers[k]).contains(x);
                                assert(answers[k] == old_answers[k]);
                                assert(0 <= k < i + 1 && answers[k].contains(x));
                            }
                            if views(found@).contains(x) {
                                assert(answers[i as int] == views(found@));
                                assert(0 <= i < i + 1 && answers[i as int].contains(x));
                            }
                            if exists|k: int| 0 <= k < i + 1 && (#[trigger] answers[k]).contains(x) {
                                let k = choose|k: int|
                                    0 <= k < i + 1 && (#[trigger] answers[k]).contains(x);
                                if k < i {
                                    assert(answers[k] == old_answers[k]);
                                    assert(exists|k: int|
                                        0 <= k < i && (#[trigger] old_answers[k]).contains(x));
                                } else {
                                    assert(views(found@).contains(x));
                                }
                            }
                        }
                    }
                    i += 1;
                }
                if engine.body.is_direct(place) {
                    let ghost before = views(found_all@);
                    let added = insert_place(&mut found_all, place.clone());
                    proof {
                        assert forall|x: PlaceView| #[trigger]
                            views(found_all@).contains(x) <==> (before.contains(x) || x
                                == place@) by {
                            if added {
                                crate::constraints::lemma_push_has(before, place@, x);
                            }
                        }
                    }
                }
                let value = sort_places(&found_all);
                let r = clone_places(&value);
                let ghost before = table(self.reachable@);
                let memo = Memo { key: place.clone(), shallow, value };
                self.reachable.push(memo);
                proof {
                    assert(table(self.reachable@) =~= before.push(memo@));
                    assert(alias_steps(engine, states, answers, targets) && states[0] == aliases0
                        && states.last() == table(self.aliases@) && reach_from(
                        engine,
                        place@,
                        answers,
                        views(r@),
                    ));
                }
                r
            },
        }
    }
}

} // verus!

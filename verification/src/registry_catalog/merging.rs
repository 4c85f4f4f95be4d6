//! Putting the series lists of several segments together.
use crate::error::{ErrorView, TsinkError};
use crate::registry_catalog::series_table::{bound_id, is_bound, keys_differ, SeriesTable};
use crate::series::{series_view, KeyView, PersistedSeries, SeriesView};
use crate::text::{decimal, with_number, with_numbers};
use vstd::prelude::*;

verus! {

/// The error for an id that two lists give different keys.
pub open spec fn id_conflict(id: u64) -> ErrorView {
    ErrorView::DataCorruption(
        "series id "@ + decimal(id as nat) + " conflicts across persisted segment metadata"@,
    )
}

/// The error for a key that two ids claim.
pub open spec fn key_conflict(bound: u64, id: u64) -> ErrorView {
    ErrorView::DataCorruption(
        "series key already bound to id "@ + decimal(bound as nat)
            + ", persisted segment metadata tried to bind "@ + decimal(id as nat),
    )
}

/// The known series with one more, or the conflict.
pub open spec fn add_series(
    keys: Map<u64, KeyView>,
    series: SeriesView,
) -> Result<Map<u64, KeyView>, ErrorView> {
    if keys.contains_key(series.id) {
        if keys[series.id] == series.key {
            Ok(keys)
        } else {
            Err(id_conflict(series.id))
        }
    } else if is_bound(keys, series.key) {
        Err(key_conflict(bound_id(keys, series.key), series.id))
    } else {
        Ok(keys.insert(series.id, series.key))
    }
}

/// The known series with a list of more, or the first conflict.
pub open spec fn add_all(
    keys: Map<u64, KeyView>,
    list: Seq<SeriesView>,
) -> Result<Map<u64, KeyView>, ErrorView>
    decreases list.len(),
{
    if list.len() == 0 {
        Ok(keys)
    } else {
        match add_all(keys, list.drop_last()) {
            Ok(before) => add_series(before, list.last()),
            Err(error) => Err(error),
        }
    }
}

/// The ids in a list.
pub open spec fn ids_of(list: Seq<SeriesView>) -> Set<u64> {
    Set::new(|id: u64| exists|i: int| 0 <= i < list.len() && (#[trigger] list[i]).id == id)
}

/// Every series of the list is in `keys`, under its own key.
pub open spec fn agrees(keys: Map<u64, KeyView>, list: Seq<SeriesView>) -> bool {
    forall|i: int|
        0 <= i < list.len() ==> keys.contains_key((#[trigger] list[i]).id) && keys[list[i].id]
            == list[i].key
}

/// What a list without conflicts adds: what was known stays, the list's own series join
/// it, and nothing else.
pub proof fn lemma_added(keys: Map<u64, KeyView>, list: Seq<SeriesView>)
    requires
        add_all(keys, list) is Ok,
    ensures
        ({
            let all = add_all(keys, list)->Ok_0;
            &&& keys.submap_of(all)
            &&& agrees(all, list)
            &&& forall|id: u64| #[trigger]
                all.contains_key(id) ==> keys.contains_key(id) || ids_of(list).contains(id)
            &&& keys_differ(keys) ==> keys_differ(all)
        }),
    decreases list.len(),
{
    let all = add_all(keys, list)->Ok_0;
    if list.len() > 0 {
        lemma_added(keys, list.drop_last());
        let before = add_all(keys, list.drop_last())->Ok_0;
        let last = list.last();
        assert(list[list.len() - 1] == last);
        assert forall|id: u64| #[trigger] keys.dom().contains(id) implies all.dom().contains(id)
            && keys[id] == all[id] by {
            assert(before.dom().contains(id) && before[id] == keys[id]);
        }
        assert forall|i: int| 0 <= i < list.len() implies all.contains_key((#[trigger] list[i]).id)
            && all[list[i].id] == list[i].key by {
            if i < list.len() - 1 {
                assert(list.drop_last()[i] == list[i]);
            }
        }
        assert forall|id: u64| #[trigger] all.contains_key(id) implies keys.contains_key(id)
            || ids_of(list).contains(id) by {
            if id != last.id {
                assert(before.contains_key(id));
                if ids_of(list.drop_last()).contains(id) {
                    let i = choose|i: int|
                        0 <= i < list.drop_last().len() && (#[trigger] list.drop_last()[i]).id
                            == id;
                    assert(list[i].id == id);
                }
            }
        }
        if keys_differ(keys) {
            assert forall|a: u64, b: u64|
                #![trigger all.contains_key(a), all.contains_key(b)]
                all.contains_key(a) && all.contains_key(b) && all[a] == all[b] implies a == b by {
                assert(a != last.id ==> before.contains_key(a));
                assert(b != last.id ==> before.contains_key(b));
            }
        }
    }
}

/// What two tables know together.
pub open spec fn together(known: &SeriesTable, staged: &SeriesTable) -> Map<u64, KeyView> {
    known.keys().union_prefer_right(staged.keys())
}

/// The staged series are new, and no key is bound twice in the two tables.
pub open spec fn staging(known: &SeriesTable, staged: &SeriesTable) -> bool {
    &&& known.wf()
    &&& staged.wf()
    &&& known.keys().dom().disjoint(staged.keys().dom())
    &&& keys_differ(together(known, staged))
}

/// Stages one series. Tells whether it is new to both tables.
pub fn stage_one(
    known: &SeriesTable,
    staged: &mut SeriesTable,
    one: &PersistedSeries,
) -> (outcome: Result<bool, TsinkError>)
    requires
        staging(known, old(staged)),
    ensures
        staging(known, final(staged)),
        match add_series(together(known, old(staged)), one@) {
            Ok(all) => {
                &&& together(known, final(staged)) == all
                &&& outcome is Ok
                &&& outcome->Ok_0 == !together(known, old(staged)).contains_key(one.series_id)
                &&& outcome->Ok_0 ==> final(staged).keys() == old(staged).keys().insert(
                    one.series_id,
                    one.key@,
                )
                &&& !outcome->Ok_0 ==> final(staged).keys() == old(staged).keys()
            },
            Err(error) => {
                &&& final(staged).keys() == old(staged).keys()
                &&& outcome is Err
                &&& outcome->Err_0@ == error
            },
        },
{
    let ghost all = together(known, staged);
    let known_key = match known.key_of(one.series_id) {
        Some(key) => Some(key),
        None => staged.key_of(one.series_id),
    };
    match known_key {
        Some(key) => {
            if key.same(&one.key) {
                return Ok(false);
            }
            return Err(
                TsinkError::DataCorruption(
                    with_number(
                        "series id ",
                        one.series_id,
                        " conflicts across persisted segment metadata",
                    ),
                ),
            );
        },
        None => {},
    }
    let bound = match known.id_of(&one.key) {
        Some(id) => Some(id),
        None => staged.id_of(&one.key),
    };
    match bound {
        Some(id) => {
            proof {
                assert(all.contains_key(id) && all[id] == one.key@);
                let other = bound_id(all, one.key@);
                assert(all.contains_key(other));
            }
            return Err(
                TsinkError::DataCorruption(
                    with_numbers(
                        "series key already bound to id ",
                        id,
                        ", persisted segment metadata tried to bind ",
                        one.series_id,
                    ),
                ),
            );
        },
        None => {},
    }
    proof {
        if is_bound(all, one.key@) {
            let id = bound_id(all, one.key@);
            assert(all.contains_key(id));
            assert(staged.keys().contains_key(id) || known.keys().contains_key(id));
        }
    }
    staged.insert(one.series_id, one.key.duplicate());
    proof {
        let grown = all.insert(one.series_id, one.key@);
        assert(together(known, staged) =~= grown);
        assert forall|a: u64, b: u64|
            #![trigger grown.contains_key(a), grown.contains_key(b)]
            grown.contains_key(a) && grown.contains_key(b) && grown[a] == grown[b] implies a
            == b by {
            assert(a != one.series_id ==> all.contains_key(a));
            assert(b != one.series_id ==> all.contains_key(b));
        }
    }
    Ok(true)
}

/// Stages a list of series. Gives the ids that are new to both tables.
pub fn stage_all(
    known: &SeriesTable,
    staged: &mut SeriesTable,
    list: &Vec<PersistedSeries>,
) -> (outcome: Result<Vec<u64>, TsinkError>)
    requires
        staging(known, old(staged)),
    ensures
        staging(known, final(staged)),
        match add_all(together(known, old(staged)), series_view(list@)) {
            Ok(all) => {
                &&& together(known, final(staged)) == all
                &&& outcome is Ok
                &&& outcome->Ok_0@.no_duplicates()
                &&& old(staged).keys().submap_of(final(staged).keys())
                &&& outcome->Ok_0@.to_set() == final(staged).keys().dom().difference(
                    old(staged).keys().dom(),
                )
            },
            Err(error) => outcome is Err && outcome->Err_0@ == error,
        },
{
    let ghost views = series_view(list@);
    let ghost start = together(known, staged);
    let mut fresh: Vec<u64> = Vec::new();
    let mut at: usize = 0;
    proof {
        assert(views.take(0) =~= Seq::<SeriesView>::empty());
        assert(fresh@.to_set() =~= staged.keys().dom().difference(staged.keys().dom()));
    }
    while at < list.len()
        invariant
            at <= list@.len(),
            views == series_view(list@),
            start == together(known, old(staged)),
            staging(known, staged),
            add_all(start, views.take(at as int)) == Ok::<Map<u64, KeyView>, ErrorView>(
                together(known, staged),
            ),
            fresh@.no_duplicates(),
            old(staged).keys().submap_of(staged.keys()),
            fresh@.to_set() == staged.keys().dom().difference(old(staged).keys().dom()),
        decreases list@.len() - at,
    {
        let ghost before = staged.keys();
        let ghost ids = fresh@;
        proof {
            assert(views.take(at + 1).drop_last() =~= views.take(at as int));
            assert(views.take(at + 1).last() == list@[at as int]@);
        }
        match stage_one(known, staged, &list[at]) {
            Ok(new) => {
                if new {
                    fresh.push(list[at].series_id);
                    proof {
                        let id = list@[at as int].series_id;
                        assert(!before.contains_key(id));
                        assert(!ids.to_set().contains(id));
                        assert(!ids.contains(id));
                        assert(fresh@.to_set() =~= ids.to_set().insert(id)) by {
                            assert forall|x: u64| fresh@.to_set().contains(x) == ids.to_set().insert(
                                id,
                            ).contains(x) by {
                                if ids.contains(x) {
                                    assert(fresh@[ids.index_of(x)] == x);
                                }
                                assert(fresh@[ids.len() as int] == id);
                            }
                        }
                        assert(fresh@.to_set() =~= staged.keys().dom().difference(
                            old(staged).keys().dom(),
                        ));
                    }
                }
            },
            Err(error) => {
                proof {
                    lemma_stays_wrong(start, views, at + 1);
                }
                return Err(error);
            },
        }
        at = at + 1;
    }
    proof {
        assert(views.take(at as int) =~= views);
    }
    Ok(fresh)
}

/// A conflict among the first of a list is the list's conflict.
proof fn lemma_stays_wrong(keys: Map<u64, KeyView>, list: Seq<SeriesView>, n: int)
    requires
        0 <= n <= list.len(),
        add_all(keys, list.take(n)) is Err,
    ensures
        add_all(keys, list) == add_all(keys, list.take(n)),
    decreases list.len() - n,
{
    if n == list.len() {
        assert(list.take(n) =~= list);
    } else {
        assert(list.take(n + 1).drop_last() =~= list.take(n));
        lemma_stays_wrong(keys, list, n + 1);
    }
}

/// The series at `at` is the first that does not go with what is known by then: its id is known
/// under another key, or its key under another id.
pub open spec fn is_first_conflict(
    keys: Map<u64, KeyView>,
    list: Seq<SeriesView>,
    at: int,
    error: ErrorView,
) -> bool {
    &&& 0 <= at < list.len()
    &&& add_all(keys, list.take(at)) matches Ok(before) && {
        let series = list[at];
        ||| before.contains_key(series.id) && before[series.id] != series.key && error
            == ErrorView::DataCorruption(
            "series id "@ + decimal(series.id as nat)
                + " conflicts across persisted segment metadata"@,
        )
        ||| !before.contains_key(series.id) && exists|bound: u64|
            {
                &&& #[trigger] before.contains_key(bound)
                &&& before[bound] == series.key
                &&& error == ErrorView::DataCorruption(
                    "series key already bound to id "@ + decimal(bound as nat)
                        + ", persisted segment metadata tried to bind "@ + decimal(
                        series.id as nat,
                    ),
                )
            }
    }
}

/// Adding a list fails exactly on its first conflict, with an error that names what is in
/// conflict. Otherwise everything known stays, every series of the list is known under its key,
/// and nothing else is.
pub proof fn law_first_conflict_is_reported(keys: Map<u64, KeyView>, list: Seq<SeriesView>)
    ensures
        match add_all(keys, list) {
            Ok(all) => {
                &&& forall|id: u64| #[trigger]
                    keys.contains_key(id) ==> all.contains_key(id) && all[id] == keys[id]
                &&& forall|i: int|
                    0 <= i < list.len() ==> all.contains_key((#[trigger] list[i]).id)
                        && all[list[i].id] == list[i].key
                &&& forall|id: u64| #[trigger]
                    all.contains_key(id) ==> keys.contains_key(id) || exists|i: int|
                        0 <= i < list.len() && (#[trigger] list[i]).id == id
            },
            Err(error) => exists|at: int| #[trigger] is_first_conflict(keys, list, at, error),
        },
    decreases list.len(),
{
    if let Ok(all) = add_all(keys, list) {
        lemma_added(keys, list);
        assert forall|id: u64| #[trigger] keys.contains_key(id) implies all.contains_key(id)
            && all[id] == keys[id] by {
            assert(keys.dom().contains(id));
        }
        assert forall|id: u64| #[trigger] all.contains_key(id) implies keys.contains_key(id)
            || exists|i: int| 0 <= i < list.len() && (#[trigger] list[i]).id == id by {
            if !keys.contains_key(id) {
                assert(ids_of(list).contains(id));
            }
        }
    } else {
        let error = add_all(keys, list)->Err_0;
        let shorter = list.drop_last();
        law_first_conflict_is_reported(keys, shorter);
        if add_all(keys, shorter) is Err {
            let at = choose|at: int| #[trigger] is_first_conflict(keys, shorter, at, error);
            assert(shorter.take(at) =~= list.take(at));
            assert(shorter[at] == list[at]);
            assert(is_first_conflict(keys, list, at, error));
        } else {
            let at = list.len() - 1;
            assert(list.take(at) =~= shorter);
            assert(list[at] == list.last());
            let before = add_all(keys, shorter)->Ok_0;
            if !before.contains_key(list.last().id) {
                let bound = bound_id(before, list.last().key);
                assert(before.contains_key(bound));
            }
            assert(is_first_conflict(keys, list, at, error));
        }
    }
}

} // verus!

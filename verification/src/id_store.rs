//! The attendance store: one deduplicated record of tag identifiers per
//! calendar day, with write-through persistence.
//!
//! The wall-clock day of an accepted read is an input to the store, not
//! something it measures itself.  When the day changes, the outgoing record
//! is handed to the backend exactly once before the new day's record is
//! begun; a persistence failure is reported but never rolls back an
//! accepted read.

use vstd::prelude::*;

use crate::day::{day_key, Day};
use crate::errors::TallyError;
use crate::id_mapping::{map_has, mapping_view_wf, IDMapping, Name, NameView};
use vstd::string::StringExecFns;
use crate::persistence::{all_mappings_wf, has_save_for, last_save_for, Persistence};
use crate::tally_id::TallyID;
use crate::text::{canon, lemma_lex_connected, lemma_lex_irreflexive, lemma_lex_transitive, lex_lt, str_lex_lt};

verus! {

/// Mathematical image of one day's attendance record.
#[verifier::ext_equal]
pub struct DayRecord {
    pub date: u32,
    pub ids: Seq<Seq<char>>,
}

/// No two identifiers of the sequence denote the same tag.
pub open spec fn ids_distinct(ids: Seq<Seq<char>>) -> bool {
    forall|i: int, j: int|
        0 <= i < j < ids.len() ==> canon(#[trigger] ids[i]) != canon(#[trigger] ids[j])
}

/// Whether the sequence holds the identifier, case-insensitively.
pub open spec fn day_has(ids: Seq<Seq<char>>, id: Seq<char>) -> bool {
    exists|i: int| 0 <= i < ids.len() && canon(#[trigger] ids[i]) == canon(id)
}

/// What adding an identifier to a day does: nothing when it is already
/// present, otherwise it is appended; the flag tells whether it was new.
pub open spec fn day_add_spec(ids: Seq<Seq<char>>, id: Seq<char>) -> (Seq<Seq<char>>, bool) {
    if day_has(ids, id) {
        (ids, false)
    } else {
        (ids.push(id), true)
    }
}

/// Record dates are strictly ascending.
pub open spec fn dates_sorted(model: Seq<DayRecord>) -> bool {
    forall|i: int, j: int|
        0 <= i < j < model.len() ==> (#[trigger] model[i]).date < (#[trigger] model[j]).date
}

/// A well-formed store model: sorted distinct dates, each day deduplicated.
pub open spec fn model_wf(model: Seq<DayRecord>) -> bool {
    &&& dates_sorted(model)
    &&& forall|i: int| 0 <= i < model.len() ==> ids_distinct((#[trigger] model[i]).ids)
}

/// The position of the record for `date`, or `-1` when absent.
pub open spec fn date_index(model: Seq<DayRecord>, date: u32) -> int
    decreases model.len(),
{
    if model.len() == 0 {
        -1
    } else if model[0].date == date {
        0
    } else {
        let r = date_index(model.drop_first(), date);
        if r < 0 {
            -1
        } else {
            r + 1
        }
    }
}

/// Where a record for `date` would be inserted to keep dates sorted.
pub open spec fn insert_pos(model: Seq<DayRecord>, date: u32) -> int
    decreases model.len(),
{
    if model.len() == 0 {
        0
    } else if model[0].date < date {
        1 + insert_pos(model.drop_first(), date)
    } else {
        0
    }
}

/// Whether the identifier was recorded on the date.
pub open spec fn store_has(model: Seq<DayRecord>, date: u32, id: Seq<char>) -> bool {
    exists|i: int|
        0 <= i < model.len() && (#[trigger] model[i]).date == date && day_has(model[i].ids, id)
}

/// What one accepted or refused read does to the store model.
pub open spec fn store_add_spec(model: Seq<DayRecord>, date: u32, id: Seq<char>) -> (
    Seq<DayRecord>,
    bool,
) {
    let i = date_index(model, date);
    if i >= 0 {
        if day_has(model[i].ids, id) {
            (model, false)
        } else {
            (model.update(i, DayRecord { date, ids: model[i].ids.push(id) }), true)
        }
    } else {
        (model.insert(insert_pos(model, date), DayRecord { date, ids: seq![id] }), true)
    }
}

/// The identifiers recorded for a date, or none when the date is absent.
pub open spec fn ids_for_date(model: Seq<DayRecord>, date: u32) -> Seq<Seq<char>> {
    if date_index(model, date) >= 0 {
        model[date_index(model, date)].ids
    } else {
        Seq::empty()
    }
}

/// What a day rollover hands to the backend: the outgoing day's record,
/// exactly once, and nothing when no day was current or its record is gone.
pub open spec fn rollover_flush(model: Seq<DayRecord>, cur: Option<u32>, date: u32) -> Seq<
    DayRecord,
> {
    match cur {
        Some(c) => if c != date && date_index(model, c) >= 0 {
            seq![model[date_index(model, c)]]
        } else {
            Seq::empty()
        },
        None => Seq::empty(),
    }
}

pub broadcast proof fn lemma_date_index_properties(model: Seq<DayRecord>, date: u32)
    ensures
        -1 <= #[trigger] date_index(model, date) < model.len(),
        date_index(model, date) >= 0 ==> model[date_index(model, date)].date == date,
        date_index(model, date) >= 0 ==> forall|j: int|
            0 <= j < date_index(model, date) ==> (#[trigger] model[j]).date != date,
        date_index(model, date) < 0 ==> forall|j: int|
            0 <= j < model.len() ==> (#[trigger] model[j]).date != date,
    decreases model.len(),
{
    if model.len() > 0 && model[0].date != date {
        let sub = model.drop_first();
        lemma_date_index_properties(sub, date);
        let r = date_index(sub, date);
        if r >= 0 {
            assert forall|j: int| 0 <= j < r + 1 implies (#[trigger] model[j]).date != date by {
                if j > 0 {
                    assert(sub[j - 1].date != date);
                }
            }
        } else {
            assert forall|j: int|
                0 <= j < model.len() implies (#[trigger] model[j]).date != date by {
                if j > 0 {
                    assert(sub[j - 1].date != date);
                }
            }
        }
    }
}

pub broadcast proof fn lemma_insert_pos_properties(model: Seq<DayRecord>, date: u32)
    requires
        dates_sorted(model),
    ensures
        0 <= #[trigger] insert_pos(model, date) <= model.len(),
        forall|j: int| 0 <= j < insert_pos(model, date) ==> (#[trigger] model[j]).date < date,
        forall|j: int|
            insert_pos(model, date) <= j < model.len() ==> (#[trigger] model[j]).date >= date,
    decreases model.len(),
{
    if model.len() > 0 {
        assert(forall|i: int, j: int|
            0 <= i < j < model.drop_first().len() ==> (#[trigger] model.drop_first()[i]).date < (
            #[trigger] model.drop_first()[j]).date);
        lemma_insert_pos_properties(model.drop_first(), date);
        if model[0].date < date {
            assert forall|j: int|
                0 <= j < insert_pos(model, date) implies (#[trigger] model[j]).date < date by {
                if j > 0 {
                    assert(model.drop_first()[j - 1].date < date);
                }
            }
            assert forall|j: int|
                insert_pos(model, date) <= j < model.len() implies (#[trigger] model[j]).date
                >= date by {
                assert(model.drop_first()[j - 1].date >= date);
            }
        }
    }
}

/// Whether some record of the store holds an identifier with this
/// canonical form.
pub open spec fn observed(model: Seq<DayRecord>, cid: Seq<char>) -> bool {
    exists|i: int, j: int|
        0 <= i < model.len() && 0 <= j < (#[trigger] model[i]).ids.len() && canon(
            #[trigger] model[i].ids[j],
        ) == cid
}

/// Strictly ascending in the lexicographic order (so also duplicate-free).
pub open spec fn sorted_strict(ids: Seq<Seq<char>>) -> bool {
    forall|i: int, j: int| 0 <= i < j < ids.len() ==> lex_lt(#[trigger] ids[i], #[trigger] ids[j])
}

/// The views of a sequence of strings.
pub open spec fn str_views(l: Seq<String>) -> Seq<Seq<char>> {
    l.map_values(|s: String| s@)
}

/// Law: the report's row order is reproducible — there is exactly one
/// strictly sorted sequence holding a given set of identifiers, so two
/// exports of identical state render identical text.
pub proof fn lemma_sorted_ids_unique(a: Seq<Seq<char>>, b: Seq<Seq<char>>)
    requires
        sorted_strict(a),
        sorted_strict(b),
        forall|x: Seq<char>| a.contains(x) <==> b.contains(x),
    ensures
        a == b,
    decreases a.len() + b.len(),
{
    if a.len() == 0 {
        if b.len() > 0 {
            assert(b.contains(b[0]));
            assert(a.contains(b[0]));
        }
        assert(a =~= b);
    } else if b.len() == 0 {
        assert(a.contains(a[0]));
        assert(b.contains(a[0]));
        assert(a =~= b);
    } else {
        assert(a.contains(a[0]));
        assert(b.contains(b[0]));
        assert(b.contains(a[0]));
        assert(a.contains(b[0]));
        let ka = choose|k: int| 0 <= k < b.len() && b[k] == a[0];
        let kb = choose|k: int| 0 <= k < a.len() && a[k] == b[0];
        if ka > 0 {
            assert(lex_lt(b[0], b[ka]));
            if kb > 0 {
                assert(lex_lt(a[0], a[kb]));
                lemma_lex_transitive(a[0], b[0], a[0]);
                lemma_lex_irreflexive(a[0]);
                assert(false);
            }
        }
        assert(a[0] == b[0]);
        let a1 = a.drop_first();
        let b1 = b.drop_first();
        assert forall|x: Seq<char>| a1.contains(x) implies b1.contains(x) by {
            let k = choose|k: int| 0 <= k < a1.len() && a1[k] == x;
            assert(a[k + 1] == x);
            assert(a.contains(x));
            assert(b.contains(x));
            let l = choose|l: int| 0 <= l < b.len() && b[l] == x;
            if l == 0 {
                assert(lex_lt(a[0], a[k + 1]));
                lemma_lex_irreflexive(a[0]);
                assert(false);
            }
            assert(b1[l - 1] == x);
        }
        assert forall|x: Seq<char>| b1.contains(x) implies a1.contains(x) by {
            let k = choose|k: int| 0 <= k < b1.len() && b1[k] == x;
            assert(b[k + 1] == x);
            assert(b.contains(x));
            assert(a.contains(x));
            let l = choose|l: int| 0 <= l < a.len() && a[l] == x;
            if l == 0 {
                assert(lex_lt(b[0], b[k + 1]));
                lemma_lex_irreflexive(b[0]);
                assert(false);
            }
            assert(a1[l - 1] == x);
        }
        lemma_sorted_ids_unique(a1, b1);
        assert forall|i: int| 0 <= i < a.len() implies a[i] == b[i] by {
            if i > 0 {
                assert(a1[i - 1] == b1[i - 1]);
            }
        }
        assert(a =~= b);
    }
}

/// Inserts a canonical identifier into a strictly sorted list, keeping it
/// sorted and duplicate-free.
fn insert_canonical(list: &mut Vec<String>, s: String)
    requires
        sorted_strict(str_views(old(list)@)),
    ensures
        sorted_strict(str_views(final(list)@)),
        forall|x: Seq<char>|
            str_views(final(list)@).contains(x) <==> str_views(old(list)@).contains(x) || x == s@,
{
    let n: usize = list.len();
    let mut i: usize = 0;
    while i < n && str_lex_lt(list[i].as_str(), s.as_str())
        invariant
            0 <= i <= n,
            n == list@.len(),
            list@ == old(list)@,
            sorted_strict(str_views(list@)),
            forall|j: int| 0 <= j < i ==> lex_lt(#[trigger] str_views(list@)[j], s@),
        decreases n - i,
    {
        proof {
            assert(str_views(list@)[i as int] == list@[i as int]@);
        }
        i = i + 1;
    }
    proof {
        if i < n {
            assert(str_views(list@)[i as int] == list@[i as int]@);
        }
    }
    if i < n && list[i].eq(&s) {
        proof {
            let v = str_views(list@);
            assert(v[i as int] == s@);
            assert(v.contains(s@));
        }
        return;
    }
    let ghost v0 = str_views(old(list)@);
    list.insert(i, s);
    proof {
        let v = str_views(list@);
        assert(v =~= v0.insert(i as int, s@));
        // s@ is strictly between its neighbours
        assert forall|j: int| 0 <= j < i implies lex_lt(#[trigger] v0[j], s@) by {}
        assert forall|j: int| i <= j < v0.len() implies lex_lt(s@, #[trigger] v0[j]) by {
            assert(v0[i as int] == old(list)@[i as int]@);
            if !lex_lt(s@, v0[i as int]) {
                lemma_lex_connected(v0[i as int], s@);
            }
            assert(lex_lt(s@, v0[i as int]));
            if j > i as int {
                lemma_lex_transitive(s@, v0[i as int], v0[j]);
            }
        }
        assert forall|a: int, b: int| 0 <= a < b < v.len() implies lex_lt(
            #[trigger] v[a],
            #[trigger] v[b],
        ) by {
            if b < i as int {
                assert(v[a] == v0[a] && v[b] == v0[b]);
            } else if a > i as int {
                assert(v[a] == v0[a - 1] && v[b] == v0[b - 1]);
            } else if a == i as int {
                assert(v[a] == s@ && v[b] == v0[b - 1]);
            } else if b == i as int {
                assert(v[a] == v0[a] && v[b] == s@);
            } else {
                assert(v[a] == v0[a] && v[b] == v0[b - 1]);
                assert(lex_lt(v0[a], s@));
                assert(lex_lt(s@, v0[b - 1]));
                lemma_lex_transitive(v0[a], s@, v0[b - 1]);
            }
        }
        assert forall|x: Seq<char>| v.contains(x) implies v0.contains(x) || x == s@ by {
            let k = choose|k: int| 0 <= k < v.len() && v[k] == x;
            if k < i as int {
                assert(v0[k] == x);
            } else if k > i as int {
                assert(v0[k - 1] == x);
            }
        }
        assert forall|x: Seq<char>| v0.contains(x) || x == s@ implies v.contains(x) by {
            if v0.contains(x) {
                let k = choose|k: int| 0 <= k < v0.len() && v0[k] == x;
                if k < i as int {
                    assert(v[k] == x);
                } else {
                    assert(v[k + 1] == x);
                }
            } else {
                assert(v[i as int] == s@);
            }
        }
    }
}

/// The identifiers of the report's rows: the unique strictly sorted
/// sequence of every canonical identifier observed across all days.
pub open spec fn observed_sorted(model: Seq<DayRecord>) -> Seq<Seq<char>> {
    choose|ids: Seq<Seq<char>>|
        sorted_strict(ids) && forall|cid: Seq<char>|
            #[trigger] ids.contains(cid) <==> observed(model, cid)
}

/// The first name entry matching the identifier, if any.
pub open spec fn lookup_name(m: Seq<(Seq<char>, NameView)>, id: Seq<char>) -> Option<NameView>
    decreases m.len(),
{
    if m.len() == 0 {
        None
    } else if canon(m[0].0) == canon(id) {
        Some(m[0].1)
    } else {
        lookup_name(m.drop_first(), id)
    }
}

/// The two leading name cells of a row: last and first name, blank when
/// the identifier is unmapped.
pub open spec fn name_cells(m: Seq<(Seq<char>, NameView)>, cid: Seq<char>) -> Seq<char> {
    match lookup_name(m, cid) {
        Some(n) => ";"@ + n.last + ";"@ + n.first,
        None => ";;"@,
    }
}

/// One presence cell per day: the marker when the identifier is a member
/// of that day's set, else blank.
pub open spec fn presence_cells(model: Seq<DayRecord>, cid: Seq<char>) -> Seq<char>
    decreases model.len(),
{
    if model.len() == 0 {
        Seq::empty()
    } else {
        (if day_has(model[0].ids, cid) {
            ";x"@
        } else {
            ";"@
        }) + presence_cells(model.drop_first(), cid)
    }
}

/// One report row: the canonical identifier, the name cells, the presence
/// cells, and a line break.
pub open spec fn csv_row(
    model: Seq<DayRecord>,
    m: Seq<(Seq<char>, NameView)>,
    cid: Seq<char>,
) -> Seq<char> {
    cid + name_cells(m, cid) + presence_cells(model, cid) + "\n"@
}

/// All report rows, in the given identifier order.
pub open spec fn csv_rows(
    model: Seq<DayRecord>,
    m: Seq<(Seq<char>, NameView)>,
    ids: Seq<Seq<char>>,
) -> Seq<char>
    decreases ids.len(),
{
    if ids.len() == 0 {
        Seq::empty()
    } else {
        csv_row(model, m, ids[0]) + csv_rows(model, m, ids.drop_first())
    }
}

/// The day columns of the header, each day under its canonical key.
pub open spec fn join_days_header(days: Seq<u32>) -> Seq<char>
    decreases days.len(),
{
    if days.len() == 0 {
        Seq::empty()
    } else {
        ";"@ + day_key(days[0]) + join_days_header(days.drop_first())
    }
}

/// The report header: the fixed columns, then one column per day.
pub open spec fn csv_header(days: Seq<u32>) -> Seq<char> {
    "ID;Last;First"@ + join_days_header(days) + "\n"@
}

/// The dates of the store's records, in storage (ascending) order.
pub open spec fn model_dates(model: Seq<DayRecord>) -> Seq<u32> {
    model.map_values(|r: DayRecord| r.date)
}

/// The whole report: header plus one row per identifier.
pub open spec fn csv_spec(
    model: Seq<DayRecord>,
    m: Seq<(Seq<char>, NameView)>,
    ids: Seq<Seq<char>>,
) -> Seq<char> {
    csv_header(model_dates(model)) + csv_rows(model, m, ids)
}

/// In a well-formed mapping the first match is the only match.
proof fn lemma_lookup_name(m: Seq<(Seq<char>, NameView)>, id: Seq<char>)
    requires
        mapping_view_wf(m),
    ensures
        lookup_name(m, id) is None <==> !map_has(m, id),
        forall|i: int|
            0 <= i < m.len() && canon((#[trigger] m[i]).0) == canon(id) ==> lookup_name(m, id)
                == Some(m[i].1),
    decreases m.len(),
{
    if m.len() > 0 {
        if canon(m[0].0) == canon(id) {
            assert(map_has(m, id));
            assert forall|i: int|
                0 <= i < m.len() && canon((#[trigger] m[i]).0) == canon(id) implies lookup_name(
                m,
                id,
            ) == Some(m[i].1) by {
                if i != 0 {
                    assert(canon(m[0].0) != canon(m[i].0));
                }
            }
        } else {
            let t = m.drop_first();
            assert(mapping_view_wf(t)) by {
                assert forall|a: int, b: int|
                    0 <= a < b < t.len() implies canon(#[trigger] t[a].0) != canon(
                    #[trigger] t[b].0,
                ) by {
                    assert(t[a] == m[a + 1] && t[b] == m[b + 1]);
                }
            }
            lemma_lookup_name(t, id);
            assert(map_has(m, id) <==> map_has(t, id)) by {
                if map_has(m, id) {
                    let i = choose|i: int| 0 <= i < m.len() && canon(#[trigger] m[i].0) == canon(id);
                    assert(i != 0);
                    assert(t[i - 1] == m[i]);
                    assert(map_has(t, id));
                }
                if map_has(t, id) {
                    let i = choose|i: int| 0 <= i < t.len() && canon(#[trigger] t[i].0) == canon(id);
                    assert(m[i + 1] == t[i]);
                    assert(map_has(m, id));
                }
            }
            assert forall|i: int|
                0 <= i < m.len() && canon((#[trigger] m[i]).0) == canon(id) implies lookup_name(
                m,
                id,
            ) == Some(m[i].1) by {
                assert(i != 0);
                assert(t[i - 1] == m[i]);
            }
        }
    }
}

/// One more day appends its header column.
proof fn lemma_join_days_snoc(days: Seq<u32>, d: u32)
    ensures
        join_days_header(days.push(d)) == join_days_header(days) + ";"@ + day_key(d),
    decreases days.len(),
{
    let t = days.push(d);
    if days.len() == 0 {
        assert(t[0] == d);
        assert(t.drop_first() =~= Seq::<u32>::empty());
        assert(join_days_header(t) == ";"@ + day_key(t[0]) + join_days_header(t.drop_first()));
        assert(join_days_header(t) =~= join_days_header(days) + ";"@ + day_key(d));
    } else {
        assert(t[0] == days[0]);
        assert(t.drop_first() =~= days.drop_first().push(d));
        lemma_join_days_snoc(days.drop_first(), d);
        assert(join_days_header(t) == ";"@ + day_key(t[0]) + join_days_header(t.drop_first()));
        assert(join_days_header(days) == ";"@ + day_key(days[0]) + join_days_header(
            days.drop_first(),
        ));
        assert(join_days_header(t) =~= join_days_header(days) + ";"@ + day_key(d));
    }
}

/// One more record appends its presence cell.
proof fn lemma_presence_snoc(model: Seq<DayRecord>, rec: DayRecord, cid: Seq<char>)
    ensures
        presence_cells(model.push(rec), cid) == presence_cells(model, cid) + (
        if day_has(rec.ids, cid) {
            ";x"@
        } else {
            ";"@
        }),
    decreases model.len(),
{
    let t = model.push(rec);
    let cell = if day_has(rec.ids, cid) {
        ";x"@
    } else {
        ";"@
    };
    if model.len() == 0 {
        assert(t[0] == rec);
        assert(t.drop_first() =~= Seq::<DayRecord>::empty());
        assert(presence_cells(t, cid) == (if day_has(t[0].ids, cid) {
            ";x"@
        } else {
            ";"@
        }) + presence_cells(t.drop_first(), cid));
        assert(presence_cells(t, cid) =~= presence_cells(model, cid) + cell);
    } else {
        assert(t[0] == model[0]);
        assert(t.drop_first() =~= model.drop_first().push(rec));
        lemma_presence_snoc(model.drop_first(), rec, cid);
        assert(presence_cells(t, cid) == (if day_has(t[0].ids, cid) {
            ";x"@
        } else {
            ";"@
        }) + presence_cells(t.drop_first(), cid));
        assert(presence_cells(model, cid) == (if day_has(model[0].ids, cid) {
            ";x"@
        } else {
            ";"@
        }) + presence_cells(model.drop_first(), cid));
        assert(presence_cells(t, cid) =~= presence_cells(model, cid) + cell);
    }
}

/// One more identifier appends its row.
proof fn lemma_csv_rows_snoc(
    model: Seq<DayRecord>,
    m: Seq<(Seq<char>, NameView)>,
    ids: Seq<Seq<char>>,
    cid: Seq<char>,
)
    ensures
        csv_rows(model, m, ids.push(cid)) == csv_rows(model, m, ids) + csv_row(model, m, cid),
    decreases ids.len(),
{
    let t = ids.push(cid);
    if ids.len() == 0 {
        assert(t[0] == cid);
        assert(t.drop_first() =~= Seq::<Seq<char>>::empty());
        assert(csv_rows(model, m, t) == csv_row(model, m, t[0]) + csv_rows(
            model,
            m,
            t.drop_first(),
        ));
        assert(csv_rows(model, m, t) =~= csv_rows(model, m, ids) + csv_row(model, m, cid));
    } else {
        assert(t[0] == ids[0]);
        assert(t.drop_first() =~= ids.drop_first().push(cid));
        lemma_csv_rows_snoc(model, m, ids.drop_first(), cid);
        assert(csv_rows(model, m, t) == csv_row(model, m, t[0]) + csv_rows(
            model,
            m,
            t.drop_first(),
        ));
        assert(csv_rows(model, m, ids) == csv_row(model, m, ids[0]) + csv_rows(
            model,
            m,
            ids.drop_first(),
        ));
        assert(csv_rows(model, m, t) =~= csv_rows(model, m, ids) + csv_row(model, m, cid));
    }
}

/// Membership after an add: the old members plus the added tag.
pub proof fn lemma_day_add_membership(ids: Seq<Seq<char>>, x: Seq<char>, id: Seq<char>)
    ensures
        day_has(day_add_spec(ids, x).0, id) <==> (day_has(ids, id) || canon(x) == canon(id)),
{
    let m1 = day_add_spec(ids, x).0;
    if day_has(ids, x) {
        if canon(x) == canon(id) {
            let k = choose|k: int| 0 <= k < ids.len() && canon(#[trigger] ids[k]) == canon(x);
            assert(canon(ids[k]) == canon(id));
        }
    } else {
        assert(m1 == ids.push(x));
        if day_has(m1, id) {
            let k = choose|k: int| 0 <= k < m1.len() && canon(#[trigger] m1[k]) == canon(id);
            if k < ids.len() {
                assert(canon(ids[k]) == canon(id));
            } else {
                assert(m1[k] == x);
            }
        }
        if day_has(ids, id) {
            let k = choose|k: int| 0 <= k < ids.len() && canon(#[trigger] ids[k]) == canon(id);
            assert(canon(m1[k]) == canon(id));
        }
        if canon(x) == canon(id) {
            assert(canon(m1[ids.len() as int]) == canon(id));
        }
    }
}

/// One more identifier extends the members by its tag.
proof fn lemma_day_has_take_step(ids: Seq<Seq<char>>, k: int, id: Seq<char>)
    requires
        0 <= k < ids.len(),
    ensures
        day_has(ids.take(k + 1), id) <==> (day_has(ids.take(k), id) || canon(ids[k]) == canon(id)),
{
    let t1 = ids.take(k + 1);
    let t0 = ids.take(k);
    if day_has(t1, id) {
        let l = choose|l: int| 0 <= l < t1.len() && canon(#[trigger] t1[l]) == canon(id);
        if l < k {
            assert(canon(t0[l]) == canon(id));
        } else {
            assert(t1[l] == ids[k]);
        }
    }
    if day_has(t0, id) {
        let l = choose|l: int| 0 <= l < t0.len() && canon(#[trigger] t0[l]) == canon(id);
        assert(canon(t1[l]) == canon(id));
    }
    if canon(ids[k]) == canon(id) {
        assert(canon(t1[k]) == canon(id));
    }
}

/// A record agrees with the latest save for its date: same date known to
/// the backend, same members.
pub open spec fn record_matches_save(saves: Seq<DayRecord>, rec: DayRecord) -> bool {
    &&& has_save_for(saves, rec.date)
    &&& match last_save_for(saves, rec.date) {
        Some(sv) => forall|id: Seq<char>|
            #![trigger day_has(rec.ids, id)]
            day_has(rec.ids, id) <==> day_has(sv.ids, id),
        None => false,
    }
}

/// The deduplicated set of identifiers recorded for one day, in first-seen
/// order.
#[derive(Debug)]
pub struct AttendanceDay {
    date: Day,
    ids: Vec<TallyID>,
}

impl View for AttendanceDay {
    type V = DayRecord;

    closed spec fn view(&self) -> DayRecord {
        DayRecord { date: self.date.0, ids: self.ids@.map_values(|id: TallyID| id@) }
    }
}

impl Clone for AttendanceDay {
    fn clone(&self) -> (r: Self)
        ensures
            r@ == self@,
    {
        let n: usize = self.ids.len();
        let mut ids: Vec<TallyID> = Vec::new();
        let mut i: usize = 0;
        while i < n
            invariant
                0 <= i <= n,
                n == self.ids@.len(),
                ids@.len() == i,
                forall|j: int| 0 <= j < i ==> (#[trigger] ids@[j])@ == self.ids@[j]@,
            decreases n - i,
        {
            ids.push(self.ids[i].clone());
            i = i + 1;
        }
        let r = AttendanceDay { date: self.date, ids };
        proof {
            assert(r@.ids =~= self@.ids);
            assert(r@ =~= self@);
        }
        r
    }
}

impl AttendanceDay {
    /// No identifier occurs twice.
    pub open spec fn wf(&self) -> bool {
        ids_distinct(self@.ids)
    }

    /// A fresh, empty record for the day.
    pub fn new(date: Day) -> (r: Self)
        ensures
            r@ == (DayRecord { date: date.0, ids: Seq::empty() }),
            r.wf(),
    {
        let r = AttendanceDay { date, ids: Vec::new() };
        proof {
            assert(r@ =~= DayRecord { date: date.0, ids: Seq::empty() });
        }
        r
    }

    /// The same identifiers re-keyed under the given day, as retrieved
    /// records are keyed by the day they were requested for.
    pub fn with_date(&self, date: Day) -> (r: Self)
        ensures
            r@ == (DayRecord { date: date.0, ids: self@.ids }),
    {
        let copy: AttendanceDay = self.clone();
        let r = AttendanceDay { date, ids: copy.ids };
        proof {
            assert(r@ =~= DayRecord { date: date.0, ids: self@.ids });
        }
        r
    }

    /// The day this record belongs to.
    pub fn date(&self) -> (r: Day)
        ensures
            r.0 == self@.date,
    {
        self.date
    }

    /// The recorded identifiers, in first-seen order.
    pub fn ids(&self) -> (r: &Vec<TallyID>)
        ensures
            r@.len() == self@.ids.len(),
            forall|i: int| 0 <= i < r@.len() ==> (#[trigger] r@[i])@ == self@.ids[i],
    {
        &self.ids
    }

    /// Whether the identifier was already recorded, case-insensitively.
    pub fn has_id(&self, id: &TallyID) -> (r: bool)
        ensures
            r == day_has(self@.ids, id@),
    {
        let n: usize = self.ids.len();
        let mut i: usize = 0;
        while i < n
            invariant
                0 <= i <= n,
                n == self.ids@.len(),
                forall|j: int| 0 <= j < i ==> canon(#[trigger] self@.ids[j]) != canon(id@),
            decreases n - i,
        {
            proof {
                assert(self@.ids[i as int] == self.ids@[i as int]@);
            }
            if self.ids[i].eq_canon(id) {
                return true;
            }
            i = i + 1;
        }
        false
    }

    /// Records the identifier unless it is already present; true exactly
    /// when it was new.
    pub fn add_id(&mut self, id: TallyID) -> (r: bool)
        requires
            old(self).wf(),
        ensures
            final(self).wf(),
            final(self)@.date == old(self)@.date,
            final(self)@.ids == day_add_spec(old(self)@.ids, id@).0,
            r == day_add_spec(old(self)@.ids, id@).1,
    {
        if self.has_id(&id) {
            return false;
        }
        self.ids.push(id);
        proof {
            assert(self@.ids =~= old(self)@.ids.push(id@));
            assert forall|i: int, j: int|
                0 <= i < j < self@.ids.len() implies canon(#[trigger] self@.ids[i]) != canon(
                #[trigger] self@.ids[j],
            ) by {
                if j == self@.ids.len() - 1 {
                    assert(!day_has(old(self)@.ids, id@));
                    assert(canon(old(self)@.ids[i]) != canon(id@));
                }
            }
        }
        true
    }
}

/// The outcome signal emitted for each tag-read event.
#[derive(Debug, Clone, Copy, PartialEq, Eq, Structural)]
pub enum IngestOutcome {
    /// The tag is new for the day; it was recorded and persisted.
    Accepted,
    /// The tag was already recorded for the day; nothing changed.
    Duplicate,
    /// The tag was recorded in memory, but a persistence write failed.
    PersistFailed,
}

/// Stores all the days, keyed and sorted by date, on top of a persistence
/// backend.
pub struct IDStore<T: Persistence> {
    days: Vec<AttendanceDay>,
    current: Option<Day>,
    /// The identity mapping, persisted independently of the day records.
    pub mapping: IDMapping,
    backend: T,
}

impl<T: Persistence> IDStore<T> {
    /// The in-memory day records, oldest first.
    pub closed spec fn days_model(&self) -> Seq<DayRecord> {
        self.days@.map_values(|d: AttendanceDay| d@)
    }

    /// The day the store believes is current, if any event arrived yet.
    pub closed spec fn current_spec(&self) -> Option<u32> {
        match self.current {
            Some(d) => Some(d.0),
            None => None,
        }
    }

    /// The backend's log of saved day records.
    pub closed spec fn saved_days(&self) -> Seq<DayRecord> {
        self.backend.day_saves()
    }

    /// The backend's log of saved mapping states.
    pub closed spec fn saved_mappings(&self) -> Seq<Seq<(Seq<char>, NameView)>> {
        self.backend.mapping_saves()
    }

    /// The identity mapping's entries.
    pub closed spec fn mapping_model(&self) -> Seq<(Seq<char>, NameView)> {
        self.mapping@
    }

    /// Whether the backend's writes always succeed.
    pub closed spec fn backend_reliable(&self) -> bool {
        self.backend.reliable()
    }

    /// Well-formedness: sorted deduplicated records, a well-formed mapping,
    /// and a record for the current day whenever one is set.
    pub open spec fn wf(&self) -> bool {
        &&& model_wf(self.days_model())
        &&& mapping_view_wf(self.mapping_model())
        &&& crate::persistence::all_mappings_wf(self.saved_mappings())
        &&& match self.current_spec() {
            Some(d) => date_index(self.days_model(), d) >= 0,
            None => true,
        }
    }

    /// An empty store on top of a backend.
    pub fn new_with_backend(backend: T) -> (r: Self)
        requires
            crate::persistence::all_mappings_wf(backend.mapping_saves()),
        ensures
            r.wf(),
            r.days_model() == Seq::<DayRecord>::empty(),
            r.current_spec() is None,
            r.mapping_model() == Seq::<(Seq<char>, NameView)>::empty(),
            r.saved_days() == backend.day_saves(),
            r.saved_mappings() == backend.mapping_saves(),
            r.backend_reliable() == backend.reliable(),
    {
        let r = IDStore { days: Vec::new(), current: None, mapping: IDMapping::new(), backend };
        proof {
            assert(r.days_model() =~= Seq::<DayRecord>::empty());
        }
        r
    }

    /// Rebuilds a store from the backend: one record per saved day,
    /// holding the members of that day's latest save (re-deduplicated),
    /// plus the latest saved identity mapping.
    #[verifier::rlimit(100)]
    pub fn new_from_storage(backend: T) -> (r: Self)
        requires
            all_mappings_wf(backend.mapping_saves()),
        ensures
            r.wf(),
            r.saved_days() == backend.day_saves(),
            r.saved_mappings() == backend.mapping_saves(),
            r.backend_reliable() == backend.reliable(),
            r.current_spec() is None,
            r.mapping_model() == (if backend.mapping_saves().len() > 0 {
                backend.mapping_saves().last()
            } else {
                Seq::<(Seq<char>, NameView)>::empty()
            }),
            forall|i: int|
                0 <= i < r.days_model().len() ==> record_matches_save(
                    backend.day_saves(),
                    #[trigger] r.days_model()[i],
                ),
            forall|d: u32|
                has_save_for(backend.day_saves(), d) ==> date_index(r.days_model(), d) >= 0,
    {
        let ghost saves0 = backend.day_saves();
        let ghost msaves0 = backend.mapping_saves();
        let ghost rel0 = backend.reliable();
        let mut store = IDStore::new_with_backend(backend);
        let day_list: Vec<Day> = store.backend.list_days();
        let n: usize = day_list.len();
        let mut i: usize = 0;
        while i < n
            invariant
                0 <= i <= n,
                n == day_list@.len(),
                store.wf(),
                store.saved_days() == saves0,
                store.saved_mappings() == msaves0,
                store.backend_reliable() == rel0,
                store.current_spec() is None,
                store.mapping_model() == Seq::<(Seq<char>, NameView)>::empty(),
                all_mappings_wf(msaves0),
                forall|k: int|
                    0 <= k < day_list@.len() ==> has_save_for(saves0, (#[trigger] day_list@[k]).0),
                forall|d: u32|
                    has_save_for(saves0, d) ==> exists|k: int|
                        0 <= k < day_list@.len() && (#[trigger] day_list@[k]).0 == d,
                forall|l: int|
                    0 <= l < store.days_model().len() ==> record_matches_save(
                        saves0,
                        #[trigger] store.days_model()[l],
                    ),
                forall|j: int|
                    0 <= j < i ==> exists|l: int|
                        0 <= l < store.days_model().len() && (#[trigger] store.days_model()[l]).date
                            == (#[trigger] day_list@[j]).0,
            decreases n - i,
        {
            let d: Day = day_list[i];
            proof {
                assert(has_save_for(saves0, day_list@[i as int].0));
            }
            match store.backend.load_day(d) {
                Some(rec) => {
                    let ghost sv = rec@;
                    proof {
                        crate::persistence::lemma_last_save_date(saves0, d.0);
                        assert(sv.date == d.0);
                    }
                    let ghost mpre = store.days_model();
                    let idx: usize = store.get_current_day(d);
                    let ghost m1 = store.days_model();
                    let mut rec2: AttendanceDay = store.days.remove(idx);
                    let ghost start_ids = rec2@.ids;
                    proof {
                        lemma_date_index_properties(mpre, d.0);
                        lemma_insert_pos_properties(mpre, d.0);
                        assert(rec2@ == m1[idx as int]);
                        // whichever branch, the record's members start out
                        // either empty or already agreeing with the save
                        if date_index(mpre, d.0) >= 0 {
                            assert(record_matches_save(saves0, mpre[idx as int]));
                        } else {
                            assert(m1[idx as int] == (DayRecord {
                                date: d.0,
                                ids: Seq::<Seq<char>>::empty(),
                            }));
                            assert(rec2@.ids =~= Seq::<Seq<char>>::empty());
                        }
                    }
                    let ids_src: &Vec<TallyID> = rec.ids();
                    let m: usize = ids_src.len();
                    let mut k: usize = 0;
                    while k < m
                        invariant
                            0 <= k <= m,
                            m == sv.ids.len(),
                            ids_src@.len() == sv.ids.len(),
                            forall|j: int| 0 <= j < m ==> (#[trigger] ids_src@[j])@ == sv.ids[j],
                            rec2.wf(),
                            rec2@.date == d.0,
                            forall|id: Seq<char>|
                                #![trigger day_has(rec2@.ids, id)]
                                day_has(rec2@.ids, id) <==> (day_has(start_ids, id) || day_has(
                                    sv.ids.take(k as int),
                                    id,
                                )),
                        decreases m - k,
                    {
                        let ghost ids_before = rec2@.ids;
                        let x: TallyID = ids_src[k].clone();
                        let added: bool = rec2.add_id(x);
                        proof {
                            assert(x@ == sv.ids[k as int]);
                            assert forall|id: Seq<char>|
                                #![trigger day_has(rec2@.ids, id)]
                                day_has(rec2@.ids, id) <==> (day_has(start_ids, id) || day_has(
                                    sv.ids.take(k + 1),
                                    id,
                                )) by {
                                lemma_day_add_membership(ids_before, x@, id);
                                lemma_day_has_take_step(sv.ids, k as int, id);
                            }
                        }
                        k = k + 1;
                    }
                    store.days.insert(idx, rec2);
                    proof {
                        lemma_date_index_properties(mpre, d.0);
                        lemma_insert_pos_properties(mpre, d.0);
                        assert(sv.ids.take(m as int) =~= sv.ids);
                        let mf = store.days_model();
                        assert(mf =~= m1.update(idx as int, rec2@));
                        // membership of the rebuilt record agrees with the save
                        assert forall|id: Seq<char>|
                            #![trigger day_has(rec2@.ids, id)]
                            day_has(rec2@.ids, id) <==> day_has(sv.ids, id) by {
                            if date_index(mpre, d.0) >= 0 {
                                assert(day_has(start_ids, id) ==> day_has(sv.ids, id));
                            } else {
                                assert(start_ids =~= Seq::<Seq<char>>::empty());
                                if day_has(start_ids, id) {
                                    let w = choose|w: int|
                                        0 <= w < start_ids.len() && canon(
                                            #[trigger] start_ids[w],
                                        ) == canon(id);
                                    assert(false);
                                }
                            }
                        }
                        assert(record_matches_save(saves0, rec2@));
                        // well-formedness of the updated model
                        assert(dates_sorted(mf)) by {
                            assert forall|a: int, b: int|
                                0 <= a < b < mf.len() implies (#[trigger] mf[a]).date < (
                            #[trigger] mf[b]).date by {
                                assert(mf[a].date == m1[a].date);
                                assert(mf[b].date == m1[b].date);
                            }
                        }
                        assert forall|l: int| 0 <= l < mf.len() implies ids_distinct(
                            (#[trigger] mf[l]).ids,
                        ) by {
                            if l != idx as int {
                                assert(mf[l] == m1[l]);
                            }
                        }
                        assert forall|l: int| 0 <= l < mf.len() implies record_matches_save(
                            saves0,
                            #[trigger] mf[l],
                        ) by {
                            if l != idx as int {
                                assert(mf[l] == m1[l]);
                                if date_index(mpre, d.0) >= 0 {
                                    assert(m1[l] == mpre[l]);
                                } else {
                                    let p = insert_pos(mpre, d.0);
                                    if l < p {
                                        assert(m1[l] == mpre[l]);
                                    } else {
                                        assert(m1[l] == mpre[l - 1]);
                                    }
                                }
                            }
                        }
                        assert forall|j: int| 0 <= j < i + 1 implies exists|l: int|
                            0 <= l < mf.len() && (#[trigger] mf[l]).date == (
                            #[trigger] day_list@[j]).0 by {
                            if j < i as int {
                                let l0 = choose|l0: int|
                                    0 <= l0 < mpre.len() && (#[trigger] mpre[l0]).date
                                        == day_list@[j].0;
                                if date_index(mpre, d.0) >= 0 {
                                    assert(mf[l0].date == mpre[l0].date || l0 == idx as int);
                                    if l0 == idx as int {
                                        assert(mf[l0].date == d.0);
                                        assert(mpre[l0].date == d.0);
                                    }
                                    assert(mf[l0].date == day_list@[j].0);
                                } else {
                                    let p = insert_pos(mpre, d.0);
                                    if l0 < p {
                                        assert(mf[l0].date == mpre[l0].date);
                                    } else {
                                        assert(mf[l0 + 1].date == mpre[l0].date);
                                    }
                                }
                            } else {
                                assert(mf[idx as int].date == d.0);
                            }
                        }
                    }
                },
                None => {
                    proof {
                        assert(false);
                    }
                },
            }
            i = i + 1;
        }
        proof {
            assert forall|d: u32| has_save_for(saves0, d) implies date_index(
                store.days_model(),
                d,
            ) >= 0 by {
                let k = choose|k: int|
                    0 <= k < day_list@.len() && (#[trigger] day_list@[k]).0 == d;
                let l = choose|l: int|
                    0 <= l < store.days_model().len() && (#[trigger] store.days_model()[l]).date
                        == day_list@[k].0;
                lemma_date_index_properties(store.days_model(), d);
                if date_index(store.days_model(), d) < 0 {
                    assert(store.days_model()[l].date != d);
                    assert(false);
                }
            }
        }
        match store.backend.load_mapping() {
            Some(m) => {
                proof {
                    assert(msaves0.len() > 0);
                    assert(msaves0[msaves0.len() - 1] == msaves0.last());
                    assert(mapping_view_wf(msaves0[msaves0.len() - 1]));
                    assert(m.wf());
                }
                store.mapping = m;
            },
            None => {},
        }
        store
    }

    /// Finds the record for the day, creating an empty one in date order if
    /// none exists, and returns its position.
    pub fn get_current_day(&mut self, today: Day) -> (idx: usize)
        requires
            old(self).wf(),
        ensures
            final(self).wf(),
            final(self).mapping_model() == old(self).mapping_model(),
            final(self).current_spec() == old(self).current_spec(),
            final(self).saved_days() == old(self).saved_days(),
            final(self).saved_mappings() == old(self).saved_mappings(),
            final(self).backend_reliable() == old(self).backend_reliable(),
            idx < final(self).days_model().len(),
            final(self).days_model()[idx as int].date == today.0,
            date_index(old(self).days_model(), today.0) >= 0 ==> final(self).days_model() == old(
                self,
            ).days_model() && idx == date_index(old(self).days_model(), today.0),
            date_index(old(self).days_model(), today.0) < 0 ==> final(self).days_model() == old(
                self,
            ).days_model().insert(
                insert_pos(old(self).days_model(), today.0),
                DayRecord { date: today.0, ids: Seq::empty() },
            ) && idx == insert_pos(old(self).days_model(), today.0),
    {
        proof {
            lemma_date_index_properties(old(self).days_model(), today.0);
            lemma_insert_pos_properties(old(self).days_model(), today.0);
        }
        let n: usize = self.days.len();
        let mut i: usize = 0;
        while i < n && self.days[i].date.0 < today.0
            invariant
                0 <= i <= n,
                n == self.days@.len(),
                self == old(self),
                old(self).wf(),
                forall|j: int| 0 <= j < i ==> (#[trigger] self.days_model()[j]).date < today.0,
            decreases n - i,
        {
            proof {
                assert(self.days_model()[i as int] == self.days@[i as int]@);
            }
            i = i + 1;
        }
        proof {
            if i < n {
                assert(self.days_model()[i as int] == self.days@[i as int]@);
            }
        }
        let ghost m = old(self).days_model();
        if i < n && self.days[i].date.0 == today.0 {
            proof {
                let di = date_index(m, today.0);
                assert(m[i as int].date == today.0);
                if di < 0 {
                    assert(false);
                }
                if di < i as int {
                    assert(m[di].date < today.0);
                    assert(m[di].date == today.0);
                    assert(false);
                }
                if di > i as int {
                    assert(m[i as int].date != today.0);
                    assert(false);
                }
            }
            return i;
        }
        proof {
            // the day is absent, and i is its insertion position
            assert(i < n ==> m[i as int].date > today.0);
            let di = date_index(m, today.0);
            if di >= 0 {
                assert(m[di].date == today.0);
                if di < i as int {
                    assert(m[di].date < today.0);
                } else {
                    assert(i < n);
                    if di > i as int {
                        assert(m[i as int].date < m[di].date);
                    }
                }
                assert(false);
            }
            let p = insert_pos(m, today.0);
            if p < i as int {
                assert(m[p].date >= today.0);
                assert(m[p].date < today.0);
                assert(false);
            }
            if p > i as int {
                assert(i < n);
                assert(m[i as int].date < today.0);
                assert(false);
            }
        }
        self.days.insert(i, AttendanceDay::new(today));
        proof {
            let rec = DayRecord { date: today.0, ids: Seq::<Seq<char>>::empty() };
            let mm = self.days_model();
            assert(mm =~= m.insert(i as int, rec));
            assert forall|a: int, b: int| 0 <= a < b < mm.len() implies (#[trigger] mm[a]).date < (
            #[trigger] mm[b]).date by {
                if b < i as int {
                } else if a > i as int {
                    assert(mm[a] == m[a - 1] && mm[b] == m[b - 1]);
                } else if a == i as int {
                    assert(mm[b] == m[b - 1]);
                    assert(m[b - 1].date >= today.0);
                    assert(m[b - 1].date != today.0);
                } else if b == i as int {
                    assert(mm[a] == m[a]);
                    assert(m[a].date < today.0);
                } else {
                    assert(mm[a] == m[a]);
                    assert(mm[b] == m[b - 1]);
                    assert(m[b - 1].date >= today.0);
                    assert(m[b - 1].date != today.0);
                }
            }
            assert forall|j: int| 0 <= j < mm.len() implies ids_distinct(
                (#[trigger] mm[j]).ids,
            ) by {
                if j < i as int {
                    assert(mm[j] == m[j]);
                } else if j == i as int {
                    assert(mm[j] == rec);
                } else {
                    assert(mm[j] == m[j - 1]);
                }
            }
            match old(self).current_spec() {
                Some(d) => {
                    let odi = date_index(m, d);
                    lemma_date_index_properties(m, d);
                    lemma_date_index_properties(mm, d);
                    if odi < i as int {
                        assert(mm[odi].date == d);
                    } else {
                        assert(mm[odi + 1].date == d);
                    }
                    if date_index(mm, d) < 0 {
                        assert(false);
                    }
                },
                None => {},
            }
        }
        i
    }

    /// Finds the record for the day without creating one.
    fn index_of_day(&self, d: Day) -> (r: Option<usize>)
        requires
            self.wf(),
        ensures
            r is Some <==> date_index(self.days_model(), d.0) >= 0,
            r matches Some(i) ==> i == date_index(self.days_model(), d.0) && i < self.days_model().len()
                && self.days_model()[i as int].date == d.0,
    {
        proof {
            lemma_date_index_properties(self.days_model(), d.0);
        }
        let n: usize = self.days.len();
        let mut i: usize = 0;
        while i < n && self.days[i].date.0 < d.0
            invariant
                0 <= i <= n,
                n == self.days@.len(),
                self.wf(),
                forall|j: int| 0 <= j < i ==> (#[trigger] self.days_model()[j]).date < d.0,
            decreases n - i,
        {
            proof {
                assert(self.days_model()[i as int] == self.days@[i as int]@);
            }
            i = i + 1;
        }
        proof {
            if i < n {
                assert(self.days_model()[i as int] == self.days@[i as int]@);
            }
        }
        let ghost m = self.days_model();
        if i < n && self.days[i].date.0 == d.0 {
            proof {
                let di = date_index(m, d.0);
                assert(m[i as int].date == d.0);
                if di < 0 {
                    assert(false);
                }
                if di < i as int {
                    assert(m[di].date < d.0);
                    assert(false);
                }
                if di > i as int {
                    assert(m[i as int].date != d.0);
                    assert(false);
                }
            }
            Some(i)
        } else {
            proof {
                let di = date_index(m, d.0);
                if di >= 0 {
                    assert(m[di].date == d.0);
                    if di < i as int {
                        assert(m[di].date < d.0);
                    } else {
                        assert(i < n);
                        if di > i as int {
                            assert(m[i as int].date < m[di].date);
                        }
                    }
                    assert(false);
                }
            }
            None
        }
    }

    /// The day records, oldest first.
    pub fn day_records(&self) -> (r: &Vec<AttendanceDay>)
        ensures
            r@.len() == self.days_model().len(),
            forall|i: int| 0 <= i < r@.len() ==> (#[trigger] r@[i])@ == self.days_model()[i],
    {
        &self.days
    }

    /// The record for a day, if one exists.
    pub fn get_day(&self, d: Day) -> (r: Option<&AttendanceDay>)
        requires
            self.wf(),
        ensures
            r is Some <==> date_index(self.days_model(), d.0) >= 0,
            r matches Some(rec) ==> rec@ == self.days_model()[date_index(self.days_model(), d.0)],
    {
        match self.index_of_day(d) {
            Some(i) => Some(&self.days[i]),
            None => None,
        }
    }

    /// Releases the persistence backend, for shutdown or inspection.
    pub fn into_backend(self) -> (r: T)
        ensures
            r.day_saves() == self.saved_days(),
            r.mapping_saves() == self.saved_mappings(),
            r.reliable() == self.backend_reliable(),
    {
        self.backend
    }

    /// Applies one tag-read event, as of the given wall-clock day.
    ///
    /// On a day change the outgoing record is first handed to the backend,
    /// exactly once.  The identifier is then recorded unless the day already
    /// holds it, and an accepted read is persisted write-through.  A
    /// persistence failure is reported in the outcome but never undoes the
    /// in-memory acceptance.
    #[verifier::rlimit(100)]
    pub fn ingest(&mut self, id: TallyID, today: Day) -> (r: IngestOutcome)
        requires
            old(self).wf(),
        ensures
            final(self).wf(),
            final(self).mapping_model() == old(self).mapping_model(),
            final(self).saved_mappings() == old(self).saved_mappings(),
            final(self).backend_reliable() == old(self).backend_reliable(),
            final(self).current_spec() == Some(today.0),
            final(self).days_model() == store_add_spec(old(self).days_model(), today.0, id@).0,
            r is Duplicate <==> !store_add_spec(old(self).days_model(), today.0, id@).1,
            old(self).backend_reliable() ==> !(r is PersistFailed),
            old(self).backend_reliable() ==> final(self).saved_days() == old(self).saved_days()
                + rollover_flush(old(self).days_model(), old(self).current_spec(), today.0) + (
            if store_add_spec(old(self).days_model(), today.0, id@).1 {
                seq![
                    DayRecord {
                        date: today.0,
                        ids: ids_for_date(old(self).days_model(), today.0).push(id@),
                    },
                ]
            } else {
                Seq::<DayRecord>::empty()
            }),
            old(self).saved_days().is_prefix_of(final(self).saved_days()),
            final(self).saved_days().len() <= old(self).saved_days().len() + 2,
    {
        proof {
            lemma_date_index_properties(old(self).days_model(), today.0);
            lemma_insert_pos_properties(old(self).days_model(), today.0);
        }
        let ghost m0 = old(self).days_model();
        let ghost saves0 = old(self).saved_days();
        let mut persist_failed: bool = false;
        let ghost flush = rollover_flush(m0, old(self).current_spec(), today.0);
        // day rollover: hand the outgoing record to the backend, once
        let cur: Option<Day> = self.current;
        match cur {
            Some(c) => {
                if c.0 != today.0 {
                    match self.index_of_day(c) {
                        Some(ci) => {
                            let res = self.backend.save_day(c, &self.days[ci]);
                            proof {
                                assert(self.days@[ci as int]@ == m0[ci as int]);
                                assert(flush =~= seq![m0[ci as int]]);
                                if res is Ok {
                                    assert(self.saved_days() =~= saves0 + flush);
                                }
                            }
                            if res.is_err() {
                                persist_failed = true;
                            }
                        },
                        None => {
                            proof {
                                assert(false);
                            }
                        },
                    }
                } else {
                    proof {
                        assert(flush =~= Seq::<DayRecord>::empty());
                        assert(self.saved_days() =~= saves0 + flush);
                    }
                }
            },
            None => {
                proof {
                    assert(flush =~= Seq::<DayRecord>::empty());
                    assert(self.saved_days() =~= saves0 + flush);
                }
            },
        }
        let ghost saves1 = self.saved_days();
        // find or begin the day's record
        let idx: usize = self.get_current_day(today);
        self.current = Some(today);
        let ghost m1 = self.days_model();
        let mut rec: AttendanceDay = self.days.remove(idx);
        let accepted: bool = rec.add_id(id);
        if accepted {
            let res = self.backend.save_day(today, &rec);
            if res.is_err() {
                persist_failed = true;
            }
        }
        self.days.insert(idx, rec);
        proof {
            let mf = self.days_model();
            let spec_pair = store_add_spec(m0, today.0, id@);
            let di = date_index(m0, today.0);
            if di >= 0 {
                assert(m1 == m0);
                assert(idx as int == di);
                if day_has(m0[di].ids, id@) {
                    assert(!accepted);
                    assert(mf =~= m0);
                    assert(mf =~= spec_pair.0);
                } else {
                    assert(accepted);
                    assert(mf =~= m0.update(di, DayRecord { date: today.0, ids: m0[di].ids.push(id@) }));
                    assert(mf =~= spec_pair.0);
                }
                assert(ids_for_date(m0, today.0) == m0[di].ids);
            } else {
                let p = insert_pos(m0, today.0);
                assert(m1 == m0.insert(p, DayRecord { date: today.0, ids: Seq::empty() }));
                assert(idx as int == p);
                assert(m1[p].ids =~= Seq::<Seq<char>>::empty());
                assert(!day_has(m1[p].ids, id@));
                assert(accepted);
                assert(mf =~= m1.update(p, DayRecord { date: today.0, ids: seq![id@] }));
                assert(m1.update(p, DayRecord { date: today.0, ids: seq![id@] }) =~~= m0.insert(
                    p,
                    DayRecord { date: today.0, ids: seq![id@] },
                ));
                assert(mf =~~= spec_pair.0);
                assert(ids_for_date(m0, today.0).push(id@) =~= seq![id@]);
            }
            // final well-formedness
            assert(dates_sorted(mf)) by {
                assert forall|a: int, b: int| 0 <= a < b < mf.len() implies (
                #[trigger] mf[a]).date < (#[trigger] mf[b]).date by {
                    assert(mf[a].date == m1[a].date);
                    assert(mf[b].date == m1[b].date);
                }
            }
            assert forall|j: int| 0 <= j < mf.len() implies ids_distinct(
                (#[trigger] mf[j]).ids,
            ) by {
                if j == idx as int {
                } else {
                    assert(mf[j] == m1[j]);
                }
            }
            lemma_date_index_properties(mf, today.0);
            if date_index(mf, today.0) < 0 {
                assert(mf[idx as int].date == today.0);
                assert(false);
            }
            // persistence accounting
            if self.backend_reliable() {
                if accepted {
                    assert(self.saved_days() =~= saves1 + seq![
                        DayRecord { date: today.0, ids: ids_for_date(m0, today.0).push(id@) },
                    ]);
                    assert(self.saved_days() =~= saves0 + flush + seq![
                        DayRecord { date: today.0, ids: ids_for_date(m0, today.0).push(id@) },
                    ]);
                } else {
                    assert(self.saved_days() =~= saves0 + flush + Seq::<DayRecord>::empty());
                }
            }
            assert(saves0.is_prefix_of(self.saved_days()));
        }
        if !accepted {
            IngestOutcome::Duplicate
        } else if persist_failed {
            IngestOutcome::PersistFailed
        } else {
            IngestOutcome::Accepted
        }
    }

    /// Add a new id for the current day.
    /// Returns false if the ID is already present at the current day.
    pub fn add_id(&mut self, id: TallyID, today: Day) -> (r: bool)
        requires
            old(self).wf(),
        ensures
            final(self).wf(),
            final(self).mapping_model() == old(self).mapping_model(),
            final(self).current_spec() == Some(today.0),
            final(self).days_model() == store_add_spec(old(self).days_model(), today.0, id@).0,
            r == store_add_spec(old(self).days_model(), today.0, id@).1,
            old(self).backend_reliable() ==> final(self).saved_days() == old(self).saved_days()
                + rollover_flush(old(self).days_model(), old(self).current_spec(), today.0) + (
            if store_add_spec(old(self).days_model(), today.0, id@).1 {
                seq![
                    DayRecord {
                        date: today.0,
                        ids: ids_for_date(old(self).days_model(), today.0).push(id@),
                    },
                ]
            } else {
                Seq::<DayRecord>::empty()
            }),
    {
        let outcome = self.ingest(id, today);
        match outcome {
            IngestOutcome::Duplicate => false,
            _ => true,
        }
    }

    /// Inserts or overwrites one identity-mapping entry, write-through: the
    /// new mapping state is handed to the backend at once.  The mapping
    /// keeps the change even when persisting it fails.
    pub fn add_mapping(&mut self, id: TallyID, name: Name) -> (r: Result<(), TallyError>)
        requires
            old(self).wf(),
        ensures
            final(self).wf(),
            final(self).days_model() == old(self).days_model(),
            final(self).current_spec() == old(self).current_spec(),
            final(self).saved_days() == old(self).saved_days(),
            final(self).backend_reliable() == old(self).backend_reliable(),
            map_has(final(self).mapping_model(), id@),
            !map_has(old(self).mapping_model(), id@) ==> final(self).mapping_model()
                == old(self).mapping_model().push((id@, name@)),
            map_has(old(self).mapping_model(), id@) ==> {
                &&& final(self).mapping_model().len() == old(self).mapping_model().len()
                &&& forall|i: int|
                    0 <= i < old(self).mapping_model().len()
                        ==> #[trigger] final(self).mapping_model()[i] == (
                    if canon(old(self).mapping_model()[i].0) == canon(id@) {
                        (old(self).mapping_model()[i].0, name@)
                    } else {
                        old(self).mapping_model()[i]
                    })
            },
            old(self).backend_reliable() ==> r is Ok,
            r is Ok ==> final(self).saved_mappings() == old(self).saved_mappings().push(
                final(self).mapping_model(),
            ),
            r is Err ==> final(self).saved_mappings() == old(self).saved_mappings(),
            r matches Err(e) ==> e is PersistenceError,
    {
        self.mapping.add_mapping(id, name);
        let r = self.backend.save_mapping(&self.mapping);
        proof {
            if r is Ok {
                assert(crate::persistence::all_mappings_wf(self.saved_mappings())) by {
                    assert forall|i: int|
                        0 <= i < self.saved_mappings().len() implies mapping_view_wf(
                        #[trigger] self.saved_mappings()[i],
                    ) by {
                        if i < old(self).saved_mappings().len() {
                            assert(self.saved_mappings()[i] == old(self).saved_mappings()[i]);
                        }
                    }
                }
            }
        }
        r
    }

    /// Every identifier ever observed, in canonical form, strictly sorted.
    pub fn observed_ids(&self) -> (r: Vec<String>)
        requires
            self.wf(),
        ensures
            sorted_strict(str_views(r@)),
            forall|k: int| 0 <= k < r@.len() ==> observed(self.days_model(), (#[trigger] r@[k])@),
            forall|i: int, j: int|
                0 <= i < self.days_model().len() && 0 <= j < (
                #[trigger] self.days_model()[i]).ids.len() ==> str_views(r@).contains(
                    canon(#[trigger] self.days_model()[i].ids[j]),
                ),
    {
        let ghost model = self.days_model();
        let mut out: Vec<String> = Vec::new();
        let n_days: usize = self.days.len();
        let mut di: usize = 0;
        while di < n_days
            invariant
                0 <= di <= n_days,
                n_days == self.days@.len(),
                model == self.days_model(),
                sorted_strict(str_views(out@)),
                forall|k: int| 0 <= k < out@.len() ==> observed(model, (#[trigger] out@[k])@),
                forall|i: int, j: int|
                    0 <= i < di && 0 <= j < (#[trigger] model[i]).ids.len() ==> str_views(
                        out@,
                    ).contains(canon(#[trigger] model[i].ids[j])),
            decreases n_days - di,
        {
            let n_ids: usize = self.days[di].ids.len();
            proof {
                assert(model[di as int] == self.days@[di as int]@);
            }
            let mut k: usize = 0;
            while k < n_ids
                invariant
                    0 <= k <= n_ids,
                    0 <= di < n_days,
                    n_days == self.days@.len(),
                    model == self.days_model(),
                    n_ids == model[di as int].ids.len(),
                    sorted_strict(str_views(out@)),
                    forall|l: int| 0 <= l < out@.len() ==> observed(model, (#[trigger] out@[l])@),
                    forall|i: int, j: int|
                        0 <= i < di && 0 <= j < (#[trigger] model[i]).ids.len() ==> str_views(
                            out@,
                        ).contains(canon(#[trigger] model[i].ids[j])),
                    forall|j: int|
                        0 <= j < k ==> str_views(out@).contains(
                            canon(#[trigger] model[di as int].ids[j]),
                        ),
                decreases n_ids - k,
            {
                proof {
                    assert(model[di as int] == self.days@[di as int]@);
                    assert(model[di as int].ids[k as int] == self.days@[di as int].ids@[k as int]@);
                }
                let cid: String = self.days[di].ids[k].canonical();
                let ghost before = out@;
                insert_canonical(&mut out, cid);
                proof {
                    let c = canon(model[di as int].ids[k as int]);
                    assert(str_views(out@).contains(c));
                    assert forall|l: int| 0 <= l < out@.len() implies observed(
                        model,
                        (#[trigger] out@[l])@,
                    ) by {
                        let x = out@[l]@;
                        assert(str_views(out@)[l] == x);
                        assert(str_views(out@).contains(x));
                        if str_views(before).contains(x) {
                            let w = choose|w: int|
                                0 <= w < before.len() && #[trigger] str_views(before)[w] == x;
                            assert(before[w]@ == x);
                            assert(observed(model, (before[w])@));
                        } else {
                            assert(x == c);
                        }
                    }
                    assert forall|i: int, j: int|
                        0 <= i < di && 0 <= j < (#[trigger] model[i]).ids.len() implies str_views(
                        out@,
                    ).contains(canon(#[trigger] model[i].ids[j])) by {
                        assert(str_views(before).contains(canon(model[i].ids[j])));
                    }
                    assert forall|j: int|
                        0 <= j < k + 1 implies str_views(out@).contains(
                        canon(#[trigger] model[di as int].ids[j]),
                    ) by {
                        if j < k {
                            assert(str_views(before).contains(canon(model[di as int].ids[j])));
                        }
                    }
                }
                k = k + 1;
            }
            di = di + 1;
        }
        out
    }

    /// Renders the presence matrix: one column per day in ascending date
    /// order, one row per observed identifier in ascending canonical order,
    /// name cells from the identity mapping, and the marker exactly where
    /// the identifier is a member of the day's set.  Reproducible: equal
    /// store states render equal text.
    pub fn export_csv(&self) -> (r: String)
        requires
            self.wf(),
        ensures
            r@ == csv_spec(
                self.days_model(),
                self.mapping_model(),
                observed_sorted(self.days_model()),
            ),
            sorted_strict(observed_sorted(self.days_model())),
            forall|cid: Seq<char>|
                #[trigger] observed_sorted(self.days_model()).contains(cid) <==> observed(
                    self.days_model(),
                    cid,
                ),
    {
        let ghost model = self.days_model();
        let ghost mapping = self.mapping_model();
        let ids: Vec<String> = self.observed_ids();
        proof {
            // the collected identifiers witness the defining property of
            // the report's row order, which is unique
            assert forall|cid: Seq<char>| #[trigger]
                str_views(ids@).contains(cid) implies observed(model, cid) by {
                let k = choose|k: int| 0 <= k < ids@.len() && #[trigger] str_views(ids@)[k] == cid;
                assert(ids@[k]@ == cid);
            }
            assert forall|cid: Seq<char>| observed(model, cid) implies #[trigger] str_views(
                ids@,
            ).contains(cid) by {
                let (i, j): (int, int) = choose|i: int, j: int|
                    0 <= i < model.len() && 0 <= j < (#[trigger] model[i]).ids.len() && canon(
                        #[trigger] model[i].ids[j],
                    ) == cid;
                assert(str_views(ids@).contains(canon(model[i].ids[j])));
            }
            assert(sorted_strict(str_views(ids@)) && forall|cid: Seq<char>|
                #[trigger] str_views(ids@).contains(cid) <==> observed(model, cid));
            let chosen = observed_sorted(model);
            assert(sorted_strict(chosen) && forall|cid: Seq<char>|
                #[trigger] chosen.contains(cid) <==> observed(model, cid));
            assert forall|x: Seq<char>|
                str_views(ids@).contains(x) <==> chosen.contains(x) by {}
            lemma_sorted_ids_unique(str_views(ids@), chosen);
        }
        let mut csv: String = String::new();
        csv.append("ID;Last;First");
        let n_days: usize = self.days.len();
        let mut di: usize = 0;
        proof {
            assert(model_dates(model).take(0) =~= Seq::<u32>::empty());
            assert(csv@ =~= "ID;Last;First"@ + join_days_header(model_dates(model).take(0)));
        }
        while di < n_days
            invariant
                0 <= di <= n_days,
                n_days == self.days@.len(),
                model == self.days_model(),
                csv@ == "ID;Last;First"@ + join_days_header(model_dates(model).take(di as int)),
            decreases n_days - di,
        {
            csv.append(";");
            let d: Day = self.days[di].date;
            let ds: String = d.to_string();
            csv.append(ds.as_str());
            proof {
                assert(model[di as int] == self.days@[di as int]@);
                assert(d.0 == model_dates(model)[di as int]);
                lemma_join_days_snoc(model_dates(model).take(di as int), d.0);
                assert(model_dates(model).take(di + 1) =~= model_dates(model).take(
                    di as int,
                ).push(d.0));
                assert(csv@ =~= "ID;Last;First"@ + join_days_header(
                    model_dates(model).take(di + 1),
                ));
            }
            di = di + 1;
        }
        csv.append("\n");
        proof {
            assert(model_dates(model).take(n_days as int) =~= model_dates(model));
            assert(csv@ =~= csv_header(model_dates(model)));
            assert(str_views(ids@).take(0) =~= Seq::<Seq<char>>::empty());
            assert(csv@ =~= csv_header(model_dates(model)) + csv_rows(
                model,
                mapping,
                str_views(ids@).take(0),
            ));
        }
        let n_ids: usize = ids.len();
        let mut k: usize = 0;
        while k < n_ids
            invariant
                0 <= k <= n_ids,
                n_ids == ids@.len(),
                n_days == self.days@.len(),
                model == self.days_model(),
                mapping == self.mapping_model(),
                self.wf(),
                csv@ == csv_header(model_dates(model)) + csv_rows(
                    model,
                    mapping,
                    str_views(ids@).take(k as int),
                ),
            decreases n_ids - k,
        {
            let ghost row_base = csv@;
            let ghost cidv = str_views(ids@)[k as int];
            proof {
                assert(cidv == ids@[k as int]@);
            }
            csv.append(ids[k].as_str());
            let probe: TallyID = TallyID(ids[k].clone());
            match self.mapping.map(&probe) {
                Some(nm) => {
                    csv.append(";");
                    csv.append(nm.last.as_str());
                    csv.append(";");
                    csv.append(nm.first.as_str());
                    proof {
                        lemma_lookup_name(mapping, cidv);
                        let i = choose|i: int|
                            0 <= i < mapping.len() && canon(#[trigger] mapping[i].0) == canon(cidv)
                                && nm@ == mapping[i].1;
                        assert(lookup_name(mapping, cidv) == Some(mapping[i].1));
                        assert(csv@ =~= row_base + cidv + name_cells(mapping, cidv));
                    }
                },
                None => {
                    csv.append(";;");
                    proof {
                        lemma_lookup_name(mapping, cidv);
                        assert(lookup_name(mapping, cidv) is None);
                        assert(csv@ =~= row_base + cidv + name_cells(mapping, cidv));
                    }
                },
            }
            let mut di2: usize = 0;
            proof {
                assert(model.take(0) =~= Seq::<DayRecord>::empty());
                assert(csv@ =~= row_base + cidv + name_cells(mapping, cidv) + presence_cells(
                    model.take(0),
                    cidv,
                ));
            }
            while di2 < n_days
                invariant
                    0 <= di2 <= n_days,
                    n_days == self.days@.len(),
                    model == self.days_model(),
                    mapping == self.mapping_model(),
                    probe@ == cidv,
                    csv@ == row_base + cidv + name_cells(mapping, cidv) + presence_cells(
                        model.take(di2 as int),
                        cidv,
                    ),
                decreases n_days - di2,
            {
                proof {
                    assert(model[di2 as int] == self.days@[di2 as int]@);
                }
                if self.days[di2].has_id(&probe) {
                    csv.append(";x");
                } else {
                    csv.append(";");
                }
                proof {
                    lemma_presence_snoc(model.take(di2 as int), model[di2 as int], cidv);
                    assert(model.take(di2 + 1) =~= model.take(di2 as int).push(model[di2 as int]));
                    assert(csv@ =~= row_base + cidv + name_cells(mapping, cidv) + presence_cells(
                        model.take(di2 + 1),
                        cidv,
                    ));
                }
                di2 = di2 + 1;
            }
            csv.append("\n");
            proof {
                assert(model.take(n_days as int) =~= model);
                assert(csv@ =~= row_base + csv_row(model, mapping, cidv));
                lemma_csv_rows_snoc(model, mapping, str_views(ids@).take(k as int), cidv);
                assert(str_views(ids@).take(k + 1) =~= str_views(ids@).take(k as int).push(cidv));
                assert(csv@ =~= csv_header(model_dates(model)) + csv_rows(
                    model,
                    mapping,
                    str_views(ids@).take(k + 1),
                ));
            }
            k = k + 1;
        }
        proof {
            assert(str_views(ids@).take(n_ids as int) =~= str_views(ids@));
            assert(csv@ =~= csv_spec(model, mapping, str_views(ids@)));
        }
        csv
    }
}

impl IDStore<crate::persistence::MemoryPersistence> {
    /// An empty store over a fresh in-memory backend: the full-history,
    /// in-memory deployment profile.
    pub fn new() -> (r: Self)
        ensures
            r.wf(),
            r.days_model() == Seq::<DayRecord>::empty(),
            r.current_spec() is None,
            r.mapping_model() == Seq::<(Seq<char>, NameView)>::empty(),
            r.saved_days() == Seq::<DayRecord>::empty(),
            r.saved_mappings() == Seq::<Seq<(Seq<char>, NameView)>>::empty(),
            r.backend_reliable(),
    {
        IDStore::new_with_backend(crate::persistence::MemoryPersistence::new())
    }
}

/// How many entries of a day's record denote the given tag.
pub open spec fn count_canon(ids: Seq<Seq<char>>, id: Seq<char>) -> int
    decreases ids.len(),
{
    if ids.len() == 0 {
        0
    } else {
        (if canon(ids.last()) == canon(id) {
            1int
        } else {
            0int
        }) + count_canon(ids.drop_last(), id)
    }
}

proof fn lemma_count_zero(ids: Seq<Seq<char>>, id: Seq<char>)
    requires
        !day_has(ids, id),
    ensures
        count_canon(ids, id) == 0,
    decreases ids.len(),
{
    if ids.len() > 0 {
        assert(canon(ids.last()) != canon(id)) by {
            if canon(ids.last()) == canon(id) {
                assert(canon(ids[ids.len() - 1]) == canon(id));
            }
        }
        assert(!day_has(ids.drop_last(), id)) by {
            if day_has(ids.drop_last(), id) {
                let k = choose|k: int|
                    0 <= k < ids.drop_last().len() && canon(#[trigger] ids.drop_last()[k]) == canon(
                        id,
                    );
                assert(canon(ids[k]) == canon(id));
            }
        }
        lemma_count_zero(ids.drop_last(), id);
    }
}

/// Law: however many times a tag was read within one day, a well-formed
/// day record holds its identifier exactly once.
pub proof fn lemma_day_contains_once(ids: Seq<Seq<char>>, id: Seq<char>)
    requires
        ids_distinct(ids),
        day_has(ids, id),
    ensures
        count_canon(ids, id) == 1,
    decreases ids.len(),
{
    let k = choose|k: int| 0 <= k < ids.len() && canon(#[trigger] ids[k]) == canon(id);
    let t = ids.drop_last();
    assert(ids_distinct(t)) by {
        assert forall|a: int, b: int| 0 <= a < b < t.len() implies canon(#[trigger] t[a]) != canon(
            #[trigger] t[b],
        ) by {
            assert(t[a] == ids[a] && t[b] == ids[b]);
        }
    }
    if k == ids.len() - 1 {
        assert(canon(ids.last()) == canon(id));
        assert(!day_has(t, id)) by {
            if day_has(t, id) {
                let l = choose|l: int| 0 <= l < t.len() && canon(#[trigger] t[l]) == canon(id);
                assert(canon(ids[l]) == canon(ids[ids.len() - 1]));
            }
        }
        lemma_count_zero(t, id);
    } else {
        assert(canon(ids.last()) != canon(id)) by {
            if canon(ids[ids.len() - 1]) == canon(id) {
                assert(canon(ids[k]) == canon(ids[ids.len() - 1]));
            }
        }
        assert(t[k] == ids[k]);
        assert(day_has(t, id));
        lemma_day_contains_once(t, id);
    }
}

/// Law: within one day a tag is accepted exactly on its first occurrence;
/// every subsequent read of the same tag — in any letter case — is refused
/// and changes nothing.
pub proof fn lemma_first_accepted_then_refused(ids: Seq<Seq<char>>, id: Seq<char>, id2: Seq<char>)
    requires
        canon(id2) == canon(id),
    ensures
        day_add_spec(ids, id).1 == !day_has(ids, id),
        day_has(day_add_spec(ids, id).0, id2),
        !day_add_spec(day_add_spec(ids, id).0, id2).1,
        day_add_spec(day_add_spec(ids, id).0, id2).0 == day_add_spec(ids, id).0,
{
    let m1 = day_add_spec(ids, id).0;
    if day_has(ids, id) {
        let k = choose|k: int| 0 <= k < ids.len() && canon(#[trigger] ids[k]) == canon(id);
        assert(canon(m1[k]) == canon(id2));
    } else {
        assert(m1[ids.len() as int] == id);
        assert(canon(m1[ids.len() as int]) == canon(id2));
    }
}

/// Law: a day rollover hands the outgoing day's record to the backend
/// exactly once, the incoming day's record starts empty, and a read after
/// the rollover never retroactively appears in the outgoing record.
pub proof fn lemma_rollover_persists_once(
    model: Seq<DayRecord>,
    cur: u32,
    date: u32,
    id: Seq<char>,
)
    requires
        model_wf(model),
        date_index(model, cur) >= 0,
        cur != date,
        date_index(model, date) < 0,
    ensures
        rollover_flush(model, Some(cur), date) == seq![model[date_index(model, cur)]],
        ids_for_date(model, date) == Seq::<Seq<char>>::empty(),
        store_add_spec(model, date, id).1,
        ids_for_date(store_add_spec(model, date, id).0, cur) == ids_for_date(model, cur),
{
    lemma_date_index_properties(model, cur);
    lemma_date_index_properties(model, date);
    lemma_insert_pos_properties(model, date);
    let p = insert_pos(model, date);
    let rec = DayRecord { date, ids: seq![id] };
    let m1 = store_add_spec(model, date, id).0;
    assert(m1 == model.insert(p, rec));
    let ci = date_index(model, cur);
    let ci2: int = if ci < p {
        ci
    } else {
        ci + 1
    };
    assert(m1[ci2] == model[ci]);
    assert(dates_sorted(m1)) by {
        assert forall|a: int, b: int| 0 <= a < b < m1.len() implies (#[trigger] m1[a]).date < (
        #[trigger] m1[b]).date by {
            if b < p {
                assert(m1[a] == model[a] && m1[b] == model[b]);
            } else if a > p {
                assert(m1[a] == model[a - 1] && m1[b] == model[b - 1]);
            } else if a == p {
                assert(m1[b] == model[b - 1]);
                assert(model[b - 1].date >= date);
                assert(model[b - 1].date != date);
            } else if b == p {
                assert(m1[a] == model[a]);
                assert(model[a].date < date);
            } else {
                assert(m1[a] == model[a]);
                assert(m1[b] == model[b - 1]);
                assert(model[b - 1].date >= date);
                assert(model[b - 1].date != date);
            }
        }
    }
    lemma_date_index_properties(m1, cur);
    let di = date_index(m1, cur);
    assert(di >= 0) by {
        if di < 0 {
            assert(m1[ci2].date == cur);
            assert(false);
        }
    }
    assert(di == ci2) by {
        assert(m1[di].date == cur);
        assert(m1[ci2].date == cur);
        if di < ci2 {
            assert(m1[di].date < m1[ci2].date);
        }
        if di > ci2 {
            assert(m1[ci2].date < m1[di].date);
        }
    }
    assert(ids_for_date(m1, cur) == ids_for_date(model, cur));
}

} // verus!

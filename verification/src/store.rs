//! What the service stores in and reads back from its table of people: how a
//! freshly parsed record is merged with the stored item, what item is written
//! for a person, and how the answers of the two name indexes are joined.
use vstd::prelude::*;
use crate::text::{split_on, has_infix, contains_infix, split_chars, lemma_split_on_two_pieces, views, has_char};
use crate::record::{Record, NameTable, pairs_to_map};

verus! {

/// Attribute names that hold `FullName` anywhere in them; the stored item's
/// key attribute is one of them.
pub open spec fn mentions_full_name(key: Seq<char>) -> bool {
    has_infix(key, "FullName"@)
}

/// `m` without the attributes whose names mention `FullName`.
pub open spec fn without_full_name(m: Map<Seq<char>, Seq<char>>) -> Map<Seq<char>, Seq<char>> {
    Map::new(|k: Seq<char>| m.contains_key(k) && !mentions_full_name(k), |k: Seq<char>| m[k])
}

/// The record stored for a person after a load: the attributes of the item
/// already stored (if any) other than those mentioning `FullName`, overridden
/// by the freshly parsed attributes.
pub open spec fn combined(
    existing: Option<Map<Seq<char>, Seq<char>>>,
    fresh: Map<Seq<char>, Seq<char>>,
) -> Map<Seq<char>, Seq<char>> {
    match existing {
        Some(e) => without_full_name(e).union_prefer_right(fresh),
        None => fresh,
    }
}

/// The view of an optional record.
pub open spec fn opt_view(r: Option<Record>) -> Option<Map<Seq<char>, Seq<char>>> {
    match r {
        Some(rec) => Some(rec@),
        None => None,
    }
}

/// The item written for the person `name` with attributes `rec`: the key
/// attribute `FullName`, the `Last-Name` (the text before the first space of
/// the name) and `First-Name` (the text between its first and second space),
/// each overridden by an attribute of `rec` of the same name.
pub open spec fn item_of(name: Seq<char>, rec: Map<Seq<char>, Seq<char>>) -> Map<Seq<char>, Seq<char>> {
    let parts = split_on(name, ' ', ' ');
    Map::<Seq<char>, Seq<char>>::empty().insert("FullName"@, name).insert("Last-Name"@, parts[0]).insert(
        "First-Name"@,
        parts[1],
    ).union_prefer_right(rec)
}

/// Merges the item already stored for a person (`existing`, `None` when the
/// table has none) with the freshly parsed record `fresh`: every stored
/// attribute whose name mentions `FullName` is dropped, and a fresh value
/// replaces a stored one.
pub fn combine_record(existing: Option<Record>, fresh: &Record) -> (r: Record)
    ensures
        r@ == combined(opt_view(existing), fresh@),
{
    let mut out = Record::new();
    let ghost base = match opt_view(existing) {
        Some(e) => without_full_name(e),
        None => Map::<Seq<char>, Seq<char>>::empty(),
    };
    match existing {
        Some(e) => {
            let es = e.entries();
            let ghost ps = es@.map_values(|p: (String, String)| (p.0@, p.1@));
            let mut i: usize = 0;
            proof {
                assert(ps.take(0) =~= Seq::<(Seq<char>, Seq<char>)>::empty());
                assert(out@ =~= without_full_name(pairs_to_map(ps.take(0))));
            }
            while i < es.len()
                invariant
                    ps == es@.map_values(|p: (String, String)| (p.0@, p.1@)),
                    pairs_to_map(ps) == e@,
                    i <= es.len(),
                    out@ == without_full_name(pairs_to_map(ps.take(i as int))),
                decreases es.len() - i,
            {
                proof {
                    assert(ps.take(i + 1).drop_last() =~= ps.take(i as int));
                    assert(ps.take(i + 1).last() == ps[i as int]);
                }
                let ghost prefix = pairs_to_map(ps.take(i as int));
                if !contains_infix(es[i].0.as_str(), "FullName") {
                    out.insert(es[i].0.clone(), es[i].1.clone());
                    proof {
                        assert(out@ =~= without_full_name(prefix.insert(ps[i as int].0, ps[i as int].1)));
                    }
                } else {
                    proof {
                        assert(out@ =~= without_full_name(prefix.insert(ps[i as int].0, ps[i as int].1)));
                    }
                }
                i = i + 1;
            }
            proof {
                assert(ps.take(es.len() as int) =~= ps);
            }
        },
        None => {
            proof {
                assert(out@ =~= base);
            }
        },
    }
    let fs = fresh.entries();
    let ghost qs = fs@.map_values(|p: (String, String)| (p.0@, p.1@));
    let mut j: usize = 0;
    proof {
        assert(qs.take(0) =~= Seq::<(Seq<char>, Seq<char>)>::empty());
        assert(out@ =~= base.union_prefer_right(pairs_to_map(qs.take(0))));
    }
    while j < fs.len()
        invariant
            qs == fs@.map_values(|p: (String, String)| (p.0@, p.1@)),
            pairs_to_map(qs) == fresh@,
            j <= fs.len(),
            out@ == base.union_prefer_right(pairs_to_map(qs.take(j as int))),
        decreases fs.len() - j,
    {
        proof {
            assert(qs.take(j + 1).drop_last() =~= qs.take(j as int));
            assert(qs.take(j + 1).last() == qs[j as int]);
        }
        let ghost prefix = pairs_to_map(qs.take(j as int));
        out.insert(fs[j].0.clone(), fs[j].1.clone());
        proof {
            assert(out@ =~= base.union_prefer_right(prefix.insert(qs[j as int].0, qs[j as int].1)));
        }
        j = j + 1;
    }
    proof {
        assert(qs.take(fs.len() as int) =~= qs);
        if opt_view(existing) is None {
            assert(out@ =~= fresh@);
        }
    }
    out
}

/// Whether the stored attribute `key` is dropped when a stored item is
/// merged with a fresh record: its name mentions `FullName`.
pub fn mentions_full_name_key(key: &str) -> (m: bool)
    ensures
        m == mentions_full_name(key@),
{
    contains_infix(key, "FullName")
}

/// The item written for the person `name` with attributes `record`.
/// The name must hold a space: its first two space-separated pieces become
/// the `Last-Name` and `First-Name` attributes.
pub fn build_item(name: &str, record: &Record) -> (item: Record)
    requires
        name@.contains(' '),
    ensures
        item@ == item_of(name@, record@),
{
    let parts = split_chars(name, ' ', ' ');
    proof {
        lemma_split_on_two_pieces(name@, ' ', ' ');
        assert(views(parts@)[0] == parts@[0]@);
        assert(views(parts@)[1] == parts@[1]@);
    }
    let mut item = Record::new();
    item.insert("FullName".to_owned(), name.to_owned());
    item.insert("Last-Name".to_owned(), parts[0].clone());
    item.insert("First-Name".to_owned(), parts[1].clone());
    let ghost base = item@;
    let fs = record.entries();
    let ghost qs = fs@.map_values(|p: (String, String)| (p.0@, p.1@));
    let mut j: usize = 0;
    proof {
        assert(qs.take(0) =~= Seq::<(Seq<char>, Seq<char>)>::empty());
        assert(item@ =~= base.union_prefer_right(pairs_to_map(qs.take(0))));
    }
    while j < fs.len()
        invariant
            qs == fs@.map_values(|p: (String, String)| (p.0@, p.1@)),
            pairs_to_map(qs) == record@,
            j <= fs.len(),
            item@ == base.union_prefer_right(pairs_to_map(qs.take(j as int))),
        decreases fs.len() - j,
    {
        proof {
            assert(qs.take(j + 1).drop_last() =~= qs.take(j as int));
            assert(qs.take(j + 1).last() == qs[j as int]);
        }
        let ghost prefix = pairs_to_map(qs.take(j as int));
        item.insert(fs[j].0.clone(), fs[j].1.clone());
        proof {
            assert(item@ =~= base.union_prefer_right(prefix.insert(qs[j as int].0, qs[j as int].1)));
        }
        j = j + 1;
    }
    proof {
        assert(qs.take(fs.len() as int) =~= qs);
        assert(item@ =~= item_of(name@, record@));
    }
    item
}

/// Merges every record of the freshly parsed `table` with the item already
/// stored for that person: `existing[i]` is what the store holds for the
/// `i`-th name of the table (`None` when nothing). The result has the same
/// names in the same order.
pub fn combine_tables(table: &NameTable, existing: Vec<Option<Record>>) -> (out: NameTable)
    requires
        existing.len() == table.name_seq().len(),
    ensures
        out.name_seq() == table.name_seq(),
        out@.dom() == table@.dom(),
        forall|i: int|
            0 <= i < table.name_seq().len() ==> #[trigger] out@[table.name_seq()[i]] == combined(
                opt_view(existing@[i]),
                table@[table.name_seq()[i]],
            ),
{
    let es = table.entries();
    let ghost ps = es@.map_values(|p: (String, Record)| (p.0@, p.1@));
    let ghost names = table.name_seq();
    let ghost olds = existing@;
    let mut out = NameTable::new();
    let mut i: usize = 0;
    proof {
        assert(names.take(0) =~= Seq::<Seq<char>>::empty());
    }
    for e in it: existing
        invariant
            ps == es@.map_values(|p: (String, Record)| (p.0@, p.1@)),
            names == table.name_seq(),
            names == ps.map_values(|p: (Seq<char>, Map<Seq<char>, Seq<char>>)| p.0),
            crate::record::keys_distinct(ps),
            pairs_to_map(ps) == table@,
            olds == it.seq(),
            olds.len() == es.len(),
            i == it.index(),
            i <= es.len(),
            out.name_seq() == names.take(i as int),
            forall|k: int|
                0 <= k < i ==> #[trigger] out@[names[k]] == combined(opt_view(olds[k]), ps[k].1),
            forall|n: Seq<char>| out@.contains_key(n) <==> names.take(i as int).contains(n),
    {
        proof {
            assert(names.take(i + 1).drop_last() =~= names.take(i as int));
            assert(names[i as int] == es@[i as int].0@);
            assert(!names.take(i as int).contains(names[i as int]));
        }
        let rec = combine_record(e, &es[i].1);
        out.insert(es[i].0.clone(), rec);
        proof {
            assert(names.take(i + 1) =~= names.take(i as int).push(names[i as int]));
            assert forall|n: Seq<char>| out@.contains_key(n) <== names.take(i + 1).contains(n) by {
                if names.take(i + 1).contains(n) {
                    let k = choose|k: int| 0 <= k < i + 1 && #[trigger] names.take(i + 1)[k] == n;
                    if k < i {
                        assert(names.take(i as int)[k] == n);
                    }
                }
            }
            assert forall|n: Seq<char>| out@.contains_key(n) ==> names.take(i + 1).contains(n) by {
                if out@.contains_key(n) && n != names[i as int] {
                    let k = choose|k: int| 0 <= k < i && #[trigger] names.take(i as int)[k] == n;
                    assert(names.take(i + 1)[k] == n);
                } else if n == names[i as int] {
                    assert(names.take(i + 1)[i as int] == n);
                }
            }
            assert forall|k: int| 0 <= k < i + 1 implies #[trigger] out@[names[k]] == combined(
                opt_view(olds[k]),
                ps[k].1,
            ) by {
                if k < i {
                    assert(names[k] != names[i as int]);
                }
            }
        }
        i = i + 1;
    }
    proof {
        assert(names.take(i as int) =~= names);
        assert forall|n: Seq<char>| out@.contains_key(n) <==> table@.contains_key(n) by {
            crate::record::lemma_pairs_to_map_contains(ps, n);
            if names.contains(n) {
                let k = choose|k: int| 0 <= k < names.len() && names[k] == n;
                assert(ps[k].0 == n);
            }
            if table@.contains_key(n) {
                let k = choose|k: int| 0 <= k < ps.len() && ps[k].0 == n;
                assert(names[k] == n);
            }
        }
        assert(out@.dom() =~= table@.dom());
        assert forall|k: int| 0 <= k < names.len() implies #[trigger] out@[names[k]] == combined(
            opt_view(existing@[k]),
            table@[names[k]],
        ) by {
            crate::record::lemma_pairs_to_map_index(ps, k);
        }
    }
    out
}

/// Whether every name of `table` holds a space, as `upload_items` needs.
pub fn names_splittable(table: &NameTable) -> (ok: bool)
    ensures
        ok == (forall|n: Seq<char>| #[trigger] table@.contains_key(n) ==> n.contains(' ')),
{
    let es = table.entries();
    let ghost ps = es@.map_values(|p: (String, Record)| (p.0@, p.1@));
    let mut i: usize = 0;
    while i < es.len()
        invariant
            ps == es@.map_values(|p: (String, Record)| (p.0@, p.1@)),
            pairs_to_map(ps) == table@,
            i <= es.len(),
            forall|k: int| 0 <= k < i ==> (#[trigger] ps[k]).0.contains(' '),
        decreases es.len() - i,
    {
        if !has_char(es[i].0.as_str(), ' ') {
            proof {
                assert(ps[i as int].0 == es@[i as int].0@);
                crate::record::lemma_pairs_to_map_contains(ps, ps[i as int].0);
            }
            return false;
        }
        proof {
            assert(ps[i as int].0 == es@[i as int].0@);
        }
        i = i + 1;
    }
    proof {
        assert forall|n: Seq<char>| #[trigger] table@.contains_key(n) implies n.contains(' ') by {
            crate::record::lemma_pairs_to_map_contains(ps, n);
            let k = choose|k: int| 0 <= k < ps.len() && ps[k].0 == n;
            assert(ps[k].0.contains(' '));
        }
    }
    true
}

/// The items written for the people of `table`, in the table's order. Every
/// name of the table must hold a space.
pub fn upload_items(table: &NameTable) -> (items: Vec<Record>)
    requires
        forall|n: Seq<char>| #[trigger] table@.contains_key(n) ==> n.contains(' '),
    ensures
        items.len() == table.name_seq().len(),
        forall|i: int|
            0 <= i < items.len() ==> #[trigger] items@[i]@ == item_of(
                table.name_seq()[i],
                table@[table.name_seq()[i]],
            ),
{
    let es = table.entries();
    let ghost ps = es@.map_values(|p: (String, Record)| (p.0@, p.1@));
    let mut items: Vec<Record> = Vec::new();
    let mut i: usize = 0;
    while i < es.len()
        invariant
            ps == es@.map_values(|p: (String, Record)| (p.0@, p.1@)),
            crate::record::keys_distinct(ps),
            pairs_to_map(ps) == table@,
            table.name_seq() == ps.map_values(|p: (Seq<char>, Map<Seq<char>, Seq<char>>)| p.0),
            forall|n: Seq<char>| #[trigger] table@.contains_key(n) ==> n.contains(' '),
            i <= es.len(),
            items.len() == i,
            forall|k: int|
                0 <= k < i ==> #[trigger] items@[k]@ == item_of(ps[k].0, ps[k].1),
        decreases es.len() - i,
    {
        proof {
            crate::record::lemma_pairs_to_map_index(ps, i as int);
            assert(ps[i as int].0 == es@[i as int].0@);
        }
        let item = build_item(es[i].0.as_str(), &es[i].1);
        items.push(item);
        i = i + 1;
    }
    proof {
        assert forall|k: int| 0 <= k < items.len() implies #[trigger] items@[k]@ == item_of(
            table.name_seq()[k],
            table@[table.name_seq()[k]],
        ) by {
            crate::record::lemma_pairs_to_map_index(ps, k);
        }
    }
    items
}

/// The views of a sequence of records.
pub open spec fn record_views(v: Seq<Record>) -> Seq<Map<Seq<char>, Seq<char>>> {
    v.map_values(|r: Record| r@)
}

/// The `FullName` values of the records of `rs` that have one, in order.
pub open spec fn full_names_of(rs: Seq<Map<Seq<char>, Seq<char>>>) -> Seq<Seq<char>>
    decreases rs.len(),
{
    if rs.len() == 0 {
        Seq::<Seq<char>>::empty()
    } else {
        let p = full_names_of(rs.drop_last());
        if rs.last().contains_key("FullName"@) {
            p.push(rs.last()["FullName"@])
        } else {
            p
        }
    }
}

/// The record has a `FullName` that is one of `names`.
pub open spec fn already_listed(r: Map<Seq<char>, Seq<char>>, names: Seq<Seq<char>>) -> bool {
    r.contains_key("FullName"@) && names.contains(r["FullName"@])
}

/// The records of `rs` that are not already listed in `names`, in order.
pub open spec fn unlisted(rs: Seq<Map<Seq<char>, Seq<char>>>, names: Seq<Seq<char>>) -> Seq<
    Map<Seq<char>, Seq<char>>,
>
    decreases rs.len(),
{
    if rs.len() == 0 {
        Seq::<Map<Seq<char>, Seq<char>>>::empty()
    } else {
        let p = unlisted(rs.drop_last(), names);
        if already_listed(rs.last(), names) {
            p
        } else {
            p.push(rs.last())
        }
    }
}

/// The answer to a name query: every record found by last name, then every
/// record found by first name whose `FullName` is not among those found by
/// last name.
pub open spec fn merged(
    by_last: Seq<Map<Seq<char>, Seq<char>>>,
    by_first: Seq<Map<Seq<char>, Seq<char>>>,
) -> Seq<Map<Seq<char>, Seq<char>>> {
    by_last + unlisted(by_first, full_names_of(by_last))
}

fn contains_string(v: &Vec<String>, s: &String) -> (found: bool)
    ensures
        found == views(v@).contains(s@),
{
    let mut i: usize = 0;
    while i < v.len()
        invariant
            i <= v.len(),
            forall|k: int| 0 <= k < i ==> v@[k]@ != s@,
        decreases v.len() - i,
    {
        if v[i] == *s {
            proof {
                assert(views(v@)[i as int] == s@);
            }
            return true;
        }
        i = i + 1;
    }
    proof {
        assert forall|k: int| 0 <= k < views(v@).len() implies views(v@)[k] != s@ by {
            assert(views(v@)[k] == v@[k]@);
        }
    }
    false
}

/// The `FullName` values of `records` that have one, in order.
fn full_names(by_last: &Vec<Record>) -> (seen: Vec<String>)
    ensures
        views(seen@) == full_names_of(record_views(by_last@)),
{
    let ghost a = record_views(by_last@);
    let mut seen: Vec<String> = Vec::new();
    let mut i: usize = 0;
    proof {
        assert(a.take(0) =~= Seq::<Map<Seq<char>, Seq<char>>>::empty());
        assert(views(seen@) =~= Seq::<Seq<char>>::empty());
    }
    while i < by_last.len()
        invariant
            a == record_views(by_last@),
            i <= by_last.len(),
            views(seen@) == full_names_of(a.take(i as int)),
        decreases by_last.len() - i,
    {
        proof {
            assert(a.take(i + 1).drop_last() =~= a.take(i as int));
            assert(a.take(i + 1).last() == by_last@[i as int]@);
        }
        match by_last[i].get("FullName") {
            Some(n) => {
                let ghost before = seen@;
                seen.push(n.clone());
                proof {
                    assert(views(seen@) =~= views(before).push(n@));
                }
            },
            None => {},
        }
        i = i + 1;
    }
    proof {
        assert(a.take(by_last.len() as int) =~= a);
    }
    seen
}

/// Whether a record with full name `full_name` is already among the
/// answers `by_last` of the last-name index, so that the first-name answer
/// does not list it again.
pub fn found_by_last_name(by_last: &Vec<Record>, full_name: &str) -> (found: bool)
    ensures
        found == full_names_of(record_views(by_last@)).contains(full_name@),
{
    let seen = full_names(by_last);
    contains_string(&seen, &full_name.to_owned())
}

/// Joins the answers of the last-name index (`by_last`) and the first-name
/// index (`by_first`) to a query: a person found by both is listed once, in
/// the place the last-name answer gives it.
pub fn merge_query_results(by_last: Vec<Record>, by_first: Vec<Record>) -> (out: Vec<Record>)
    ensures
        record_views(out@) == merged(record_views(by_last@), record_views(by_first@)),
{
    let ghost a = record_views(by_last@);
    let ghost b = record_views(by_first@);
    let seen = full_names(&by_last);
    let ghost names = views(seen@);
    let mut out = by_last;
    proof {
        assert(b.take(0) =~= Seq::<Map<Seq<char>, Seq<char>>>::empty());
        assert(record_views(out@) =~= a + unlisted(b.take(0), names));
    }
    for r in it: by_first
        invariant
            b == record_views(it.seq()),
            names == views(seen@),
            names == full_names_of(a),
            record_views(out@) == a + unlisted(b.take(it.index()), names),
    {
        let ghost j = it.index();
        proof {
            assert(b.take(j + 1).drop_last() =~= b.take(j));
            assert(b.take(j + 1).last() == r@);
        }
        let listed = match r.get("FullName") {
            Some(n) => contains_string(&seen, n),
            None => false,
        };
        let ghost before = out@;
        let ghost rv = r@;
        if !listed {
            out.push(r);
            proof {
                assert(record_views(out@) =~= record_views(before).push(rv));
            }
        }
    }
    proof {
        assert(b.take(b.len() as int) =~= b);
    }
    out
}

} // verus!

//! Properties of the library that span its functions: what a load stores,
//! how reloading behaves, and what the query answer holds.
use vstd::prelude::*;
use crate::parse::{parsed, table_of, is_person_name, name_of, lines_name_people, record_of, key_of, value_of};
use crate::text::{lines_of, words_of, lemma_words_are_blank_free, lemma_split_joined, lemma_words_at_blank, split_on, strip_cr, non_empty, lemma_split_extend, lemma_split_at_separator, lemma_split_on_nonempty, lemma_words_of_empty};
use crate::store::{combined, item_of, without_full_name, mentions_full_name, merged, full_names_of, unlisted, already_listed};

verus! {

/// A freshly loaded attribute always wins: after merging, every attribute of
/// the fresh record has its fresh value, and every other attribute comes
/// from the stored item and does not mention `FullName`.
pub proof fn lemma_fresh_values_win(
    existing: Option<Map<Seq<char>, Seq<char>>>,
    fresh: Map<Seq<char>, Seq<char>>,
)
    ensures
        forall|k: Seq<char>| #[trigger] fresh.contains_key(k) ==> combined(existing, fresh).contains_key(k)
            && combined(existing, fresh)[k] == fresh[k],
        forall|k: Seq<char>|
            #[trigger] combined(existing, fresh).contains_key(k) && !fresh.contains_key(k) ==> {
                &&& existing is Some
                &&& existing->0.contains_key(k)
                &&& !mentions_full_name(k)
                &&& combined(existing, fresh)[k] == existing->0[k]
            },
{
}

/// Loading the same record twice stores the same item as loading it once:
/// the item written for a person after merging the fresh record with the
/// item a first load wrote is that first item.
pub proof fn lemma_reload_is_stable(
    name: Seq<char>,
    existing: Option<Map<Seq<char>, Seq<char>>>,
    fresh: Map<Seq<char>, Seq<char>>,
)
    ensures
        item_of(name, combined(Some(item_of(name, combined(existing, fresh))), fresh)) == item_of(
            name,
            combined(existing, fresh),
        ),
{
    let c = combined(existing, fresh);
    let first = item_of(name, c);
    let again = item_of(name, combined(Some(first), fresh));
    assert forall|k: Seq<char>| #[trigger] c.contains_key(k) && !fresh.contains_key(k) implies !mentions_full_name(k) by {
        lemma_fresh_values_win(existing, fresh);
    }
    assert(again =~= first);
}

pub proof fn lemma_full_names_concat(x: Seq<Map<Seq<char>, Seq<char>>>, y: Seq<Map<Seq<char>, Seq<char>>>)
    ensures
        full_names_of(x + y) == full_names_of(x) + full_names_of(y),
    decreases y.len(),
{
    if y.len() == 0 {
        assert(x + y =~= x);
        assert(full_names_of(x) + full_names_of(y) =~= full_names_of(x));
    } else {
        lemma_full_names_concat(x, y.drop_last());
        assert((x + y).drop_last() =~= x + y.drop_last());
        assert((x + y).last() == y.last());
        if y.last().contains_key("FullName"@) {
            assert(full_names_of(x) + full_names_of(y) =~= (full_names_of(x) + full_names_of(
                y.drop_last(),
            )).push(y.last()["FullName"@]));
        } else {
            assert(full_names_of(x) + full_names_of(y) =~= full_names_of(x) + full_names_of(
                y.drop_last(),
            ));
        }
    }
}

proof fn lemma_unlisted_names(b: Seq<Map<Seq<char>, Seq<char>>>, names: Seq<Seq<char>>)
    requires
        full_names_of(b).no_duplicates(),
    ensures
        full_names_of(unlisted(b, names)).no_duplicates(),
        forall|n: Seq<char>| #[trigger] full_names_of(unlisted(b, names)).contains(n) ==> full_names_of(
            b,
        ).contains(n) && !names.contains(n),
    decreases b.len(),
{
    if b.len() > 0 {
        let bp = b.drop_last();
        let r = b.last();
        let fb = full_names_of(b);
        let fbp = full_names_of(bp);
        if r.contains_key("FullName"@) {
            assert(fb == fbp.push(r["FullName"@]));
            assert forall|i: int, j: int| 0 <= i < j < fbp.len() implies fbp[i] != fbp[j] by {
                assert(fb[i] == fbp[i] && fb[j] == fbp[j]);
            }
        } else {
            assert(fb == fbp);
        }
        lemma_unlisted_names(bp, names);
        let t = full_names_of(unlisted(bp, names));
        assert forall|n: Seq<char>| fbp.contains(n) implies fb.contains(n) by {
            let i = choose|i: int| 0 <= i < fbp.len() && fbp[i] == n;
            assert(fb[i] == n);
        }
        if !already_listed(r, names) {
            let u = unlisted(b, names);
            assert(u == unlisted(bp, names).push(r));
            assert(u.drop_last() =~= unlisted(bp, names));
            if r.contains_key("FullName"@) {
                let n0 = r["FullName"@];
                assert(full_names_of(u) == t.push(n0));
                assert(!fbp.contains(n0)) by {
                    if fbp.contains(n0) {
                        let i = choose|i: int| 0 <= i < fbp.len() && fbp[i] == n0;
                        assert(fb[i] == fb[fbp.len() as int]);
                    }
                }
                assert(!t.contains(n0));
                assert forall|n: Seq<char>| #[trigger] full_names_of(u).contains(n) implies fb.contains(n)
                    && !names.contains(n) by {
                    let i = choose|i: int| 0 <= i < full_names_of(u).len() && full_names_of(u)[i] == n;
                    if i < t.len() {
                        assert(t[i] == n);
                        assert(t.contains(n));
                        assert(fbp.contains(n));
                    } else {
                        assert(n == n0);
                        assert(fb[fbp.len() as int] == n0);
                        assert(fb.contains(n));
                    }
                }
                assert forall|i: int, j: int| 0 <= i < j < full_names_of(u).len() implies full_names_of(u)[i]
                    != full_names_of(u)[j] by {
                    if j == t.len() {
                        assert(t[i] == full_names_of(u)[i]);
                    }
                }
            } else {
                assert(full_names_of(u) == t);
            }
        }
    }
}

/// A person found by both name indexes is listed once: when neither index
/// answers with the same `FullName` twice, no `FullName` occurs twice in the
/// joined answer, and every record the first-name index adds has a
/// `FullName` that the last-name answer does not hold.
pub proof fn lemma_merge_lists_each_person_once(
    by_last: Seq<Map<Seq<char>, Seq<char>>>,
    by_first: Seq<Map<Seq<char>, Seq<char>>>,
)
    requires
        full_names_of(by_last).no_duplicates(),
        full_names_of(by_first).no_duplicates(),
    ensures
        full_names_of(merged(by_last, by_first)).no_duplicates(),
        merged(by_last, by_first).take(by_last.len() as int) == by_last,
        forall|i: int|
            by_last.len() <= i < merged(by_last, by_first).len() ==> !already_listed(
                #[trigger] merged(by_last, by_first)[i],
                full_names_of(by_last),
            ),
{
    let names = full_names_of(by_last);
    let u = unlisted(by_first, names);
    lemma_unlisted_names(by_first, names);
    lemma_unlisted_keeps_unlisted(by_first, names);
    lemma_full_names_concat(by_last, u);
    let all = full_names_of(merged(by_last, by_first));
    assert(all == names + full_names_of(u));
    assert forall|i: int, j: int| 0 <= i < j < all.len() implies all[i] != all[j] by {
        if j >= names.len() && i < names.len() {
            assert(full_names_of(u).contains(all[j]));
            assert(names.contains(all[i]));
        }
    }
    assert(merged(by_last, by_first).take(by_last.len() as int) =~= by_last);
    assert forall|i: int| by_last.len() <= i < merged(by_last, by_first).len() implies !already_listed(
        #[trigger] merged(by_last, by_first)[i],
        names,
    ) by {
        assert(merged(by_last, by_first)[i] == u[i - by_last.len()]);
    }
}

proof fn lemma_unlisted_keeps_unlisted(b: Seq<Map<Seq<char>, Seq<char>>>, names: Seq<Seq<char>>)
    ensures
        forall|i: int| 0 <= i < unlisted(b, names).len() ==> !already_listed(#[trigger] unlisted(b, names)[i], names),
    decreases b.len(),
{
    if b.len() > 0 {
        let bp = b.drop_last();
        lemma_unlisted_keeps_unlisted(bp, names);
        let p = unlisted(bp, names);
        if !already_listed(b.last(), names) {
            assert forall|i: int| 0 <= i < unlisted(b, names).len() implies !already_listed(
                #[trigger] unlisted(b, names)[i],
                names,
            ) by {
                if i < p.len() {
                    assert(unlisted(b, names)[i] == p[i]);
                }
            }
        }
    }
}

proof fn lemma_name_chars(w0: Seq<char>, w1: Seq<char>, c: char)
    requires
        !w0.contains(c),
        !w1.contains(c),
        c != ' ',
    ensures
        !(w0 + seq![' '] + w1).contains(c),
        (w0 + seq![' '] + w1).contains(' '),
{
    let n = w0 + seq![' '] + w1;
    assert(n[w0.len() as int] == ' ');
    if n.contains(c) {
        let k = choose|k: int| 0 <= k < n.len() && n[k] == c;
        if k < w0.len() {
            assert(w0[k] == c);
        } else if k > w0.len() {
            assert(w1[k - w0.len() - 1] == c);
        }
    }
}

proof fn lemma_table_names(lines: Seq<Seq<char>>)
    requires
        forall|i: int| 0 <= i < lines.len() ==> #[trigger] words_of(lines[i]).len() >= 2,
    ensures
        forall|n: Seq<char>| #[trigger] table_of(lines).contains_key(n) ==> is_person_name(n) && n.contains(' '),
    decreases lines.len(),
{
    if lines.len() > 0 {
        let lp = lines.drop_last();
        assert forall|i: int| 0 <= i < lp.len() implies #[trigger] words_of(lp[i]).len() >= 2 by {
            assert(lp[i] == lines[i]);
        }
        lemma_table_names(lp);
        let ws = words_of(lines.last());
        assert(lines[lines.len() - 1] == lines.last());
        assert(ws.len() >= 2);
        lemma_words_are_blank_free(lines.last());
        let name = name_of(ws);
        let w0 = ws[0];
        let w1 = ws[1];
        assert(w0.len() > 0 && !w0.contains(' ') && !w0.contains('\t'));
        assert(w1.len() > 0 && !w1.contains(' ') && !w1.contains('\t'));
        if !name.contains('=') {
            lemma_split_joined(w0, w1, ' ');
            lemma_name_chars(w0, w1, '\t');
            assert(is_person_name(name));
        }
        assert forall|n: Seq<char>| #[trigger] table_of(lines).contains_key(n) implies is_person_name(n)
            && n.contains(' ') by {
            if !(n == name && !name.contains('=')) {
                assert(table_of(lp).contains_key(n));
            }
        }
    }
}

/// Every full name read from a name file is two non-empty words joined by
/// one space, with no tab and no `=`: it holds the space that the item
/// written for it needs, and splits back into the line's first two words.
pub proof fn lemma_parsed_names_are_person_names(text: Seq<char>)
    requires
        lines_name_people(text),
    ensures
        forall|n: Seq<char>| #[trigger] parsed(text).contains_key(n) ==> is_person_name(n) && n.contains(' '),
{
    let lines = lines_of(text);
    assert forall|i: int| 0 <= i < lines.len() implies #[trigger] words_of(lines[i]).len() >= 2 by {
        assert(words_of(lines_of(text)[i]).len() >= 2);
    }
    lemma_table_names(lines);
}

/// Line `j` of `lines` names `n` and is not skipped.
pub open spec fn line_names(lines: Seq<Seq<char>>, j: int, n: Seq<char>) -> bool {
    name_of(words_of(lines[j])) == n && !n.contains('=')
}

proof fn lemma_table_last_line_wins(lines: Seq<Seq<char>>, n: Seq<char>)
    ensures
        table_of(lines).contains_key(n) <==> exists|j: int| 0 <= j < lines.len() && #[trigger] line_names(lines, j, n),
        table_of(lines).contains_key(n) ==> exists|j: int|
            0 <= j < lines.len() && #[trigger] line_names(lines, j, n) && table_of(lines)[n] == record_of(
                words_of(lines[j]),
            ) && forall|k: int| j < k < lines.len() ==> !line_names(lines, k, n),
    decreases lines.len(),
{
    if lines.len() > 0 {
        let lp = lines.drop_last();
        let last = lines.len() - 1;
        lemma_table_last_line_wins(lp, n);
        assert forall|j: int| 0 <= j < lp.len() implies line_names(lp, j, n) == line_names(lines, j, n) by {
            assert(lp[j] == lines[j]);
        }
        assert(lines[last] == lines.last());
        if line_names(lines, last, n) {
            assert(table_of(lines)[n] == record_of(words_of(lines[last])));
        } else {
            if table_of(lines).contains_key(n) {
                assert(table_of(lp).contains_key(n));
                let j = choose|j: int|
                    0 <= j < lp.len() && #[trigger] line_names(lp, j, n) && table_of(lp)[n] == record_of(
                        words_of(lp[j]),
                    ) && forall|k: int| j < k < lp.len() ==> !line_names(lp, k, n);
                assert(lp[j] == lines[j]);
                assert(line_names(lines, j, n));
                assert forall|k: int| j < k < lines.len() implies !line_names(lines, k, n) by {
                    if k < last {
                        assert(!line_names(lp, k, n));
                    }
                }
            }
            if exists|j: int| 0 <= j < lines.len() && #[trigger] line_names(lines, j, n) {
                let j = choose|j: int| 0 <= j < lines.len() && #[trigger] line_names(lines, j, n);
                assert(line_names(lp, j, n));
            }
        }
    }
}

/// A person is in the table read from a name file exactly when some line,
/// not skipped, names that person; the record stored is the one of the last
/// such line, so a later line replaces an earlier one.
pub proof fn lemma_parsed_last_line_wins(text: Seq<char>, n: Seq<char>)
    ensures
        parsed(text).contains_key(n) <==> exists|j: int|
            0 <= j < lines_of(text).len() && #[trigger] line_names(lines_of(text), j, n),
        parsed(text).contains_key(n) ==> exists|j: int|
            0 <= j < lines_of(text).len() && #[trigger] line_names(lines_of(text), j, n) && parsed(text)[n]
                == record_of(words_of(lines_of(text)[j])) && forall|k: int|
                j < k < lines_of(text).len() ==> !line_names(lines_of(text), k, n),
{
    lemma_table_last_line_wins(lines_of(text), n);
}

/// Word `j` of `ws` sets the attribute `k`.
pub open spec fn word_sets(ws: Seq<Seq<char>>, j: int, k: Seq<char>) -> bool {
    ws[j].contains('=') && key_of(ws[j]) == k
}

/// A line's record has attribute `k` exactly when some word of the line
/// sets `k`; its value is the one the last such word gives.
pub proof fn lemma_record_last_word_wins(ws: Seq<Seq<char>>, k: Seq<char>)
    ensures
        record_of(ws).contains_key(k) <==> exists|j: int| 0 <= j < ws.len() && #[trigger] word_sets(ws, j, k),
        record_of(ws).contains_key(k) ==> exists|j: int|
            0 <= j < ws.len() && #[trigger] word_sets(ws, j, k) && record_of(ws)[k] == value_of(ws[j])
                && forall|m: int| j < m < ws.len() ==> !word_sets(ws, m, k),
    decreases ws.len(),
{
    if ws.len() > 0 {
        let wp = ws.drop_last();
        let last = ws.len() - 1;
        lemma_record_last_word_wins(wp, k);
        assert forall|j: int| 0 <= j < wp.len() implies word_sets(wp, j, k) == word_sets(ws, j, k) by {
            assert(wp[j] == ws[j]);
        }
        assert(ws[last] == ws.last());
        if !word_sets(ws, last, k) {
            if record_of(ws).contains_key(k) {
                assert(record_of(wp).contains_key(k));
                let j = choose|j: int|
                    0 <= j < wp.len() && #[trigger] word_sets(wp, j, k) && record_of(wp)[k] == value_of(wp[j])
                        && forall|m: int| j < m < wp.len() ==> !word_sets(wp, m, k);
                assert(wp[j] == ws[j]);
                assert(word_sets(ws, j, k));
                assert forall|m: int| j < m < ws.len() implies !word_sets(ws, m, k) by {
                    if m < last {
                        assert(!word_sets(wp, m, k));
                    }
                }
            }
            if exists|j: int| 0 <= j < ws.len() && #[trigger] word_sets(ws, j, k) {
                let j = choose|j: int| 0 <= j < ws.len() && #[trigger] word_sets(ws, j, k);
                assert(word_sets(wp, j, k));
            }
        }
    }
}

/// Which blank separates two words does not matter: a space and a tab give
/// the same words.
pub proof fn lemma_blank_kind_irrelevant(x: Seq<char>, c: char, d: char, y: Seq<char>)
    requires
        c == ' ' || c == '\t',
        d == ' ' || d == '\t',
    ensures
        words_of(x + seq![c] + y) == words_of(x + seq![d] + y),
{
    lemma_words_at_blank(x, c, y);
    lemma_words_at_blank(x, d, y);
}

/// How long a run of blanks is does not matter: a blank next to a blank
/// adds no word.
pub proof fn lemma_blank_run_length_irrelevant(x: Seq<char>, c: char, d: char, y: Seq<char>)
    requires
        c == ' ' || c == '\t',
        d == ' ' || d == '\t',
    ensures
        words_of(x + seq![c, d] + y) == words_of(x + seq![c] + y),
{
    let e = Seq::<char>::empty();
    assert(x + seq![c, d] + y =~= x + seq![c] + (seq![d] + y));
    lemma_words_at_blank(x, c, seq![d] + y);
    assert(e + seq![d] + y =~= seq![d] + y);
    lemma_words_at_blank(e, d, y);
    crate::text::lemma_words_of_empty();
    lemma_words_at_blank(x, c, y);
    assert(words_of(x) + words_of(seq![d] + y) =~= words_of(x) + words_of(y));
}

/// Blanks at the start or the end of a line add no word.
pub proof fn lemma_edge_blanks_irrelevant(x: Seq<char>, c: char)
    requires
        c == ' ' || c == '\t',
    ensures
        words_of(seq![c] + x) == words_of(x),
        words_of(x + seq![c]) == words_of(x),
{
    let e = Seq::<char>::empty();
    crate::text::lemma_words_of_empty();
    lemma_words_at_blank(e, c, x);
    assert(e + seq![c] + x =~= seq![c] + x);
    assert(words_of(e) + words_of(x) =~= words_of(x));
    lemma_words_at_blank(x, c, e);
    assert(x + seq![c] + e =~= x + seq![c]);
    assert(words_of(x) + words_of(e) =~= words_of(x));
}

proof fn lemma_table_same_words(l1: Seq<Seq<char>>, l2: Seq<Seq<char>>)
    requires
        l1.len() == l2.len(),
        forall|i: int| 0 <= i < l1.len() ==> #[trigger] words_of(l1[i]) == words_of(l2[i]),
    ensures
        table_of(l1) == table_of(l2),
    decreases l1.len(),
{
    if l1.len() > 0 {
        let p1 = l1.drop_last();
        let p2 = l2.drop_last();
        assert forall|i: int| 0 <= i < p1.len() implies #[trigger] words_of(p1[i]) == words_of(p2[i]) by {
            assert(p1[i] == l1[i] && p2[i] == l2[i]);
            assert(words_of(l1[i]) == words_of(l2[i]));
        }
        lemma_table_same_words(p1, p2);
        assert(l1[l1.len() - 1] == l1.last() && l2[l2.len() - 1] == l2.last());
        assert(words_of(l1[l1.len() - 1]) == words_of(l2[l2.len() - 1]));
    }
}

/// Only the words of each line matter to the table read from a name file:
/// two files with the same number of lines, whose lines hold the same words
/// line by line, give the same table, however the blanks between, before and
/// after the words differ (see the three lemmas on blanks above).
pub proof fn lemma_parsed_depends_on_words_only(text1: Seq<char>, text2: Seq<char>)
    requires
        lines_of(text1).len() == lines_of(text2).len(),
        forall|i: int|
            0 <= i < lines_of(text1).len() ==> #[trigger] words_of(lines_of(text1)[i]) == words_of(
                lines_of(text2)[i],
            ),
    ensures
        parsed(text1) == parsed(text2),
{
    lemma_table_same_words(lines_of(text1), lines_of(text2));
}

/// A `FullName` is among those collected from `rs` exactly when some record
/// of `rs` has that `FullName`.
pub proof fn lemma_full_names_members(rs: Seq<Map<Seq<char>, Seq<char>>>, x: Seq<char>)
    ensures
        full_names_of(rs).contains(x) <==> exists|i: int|
            0 <= i < rs.len() && (#[trigger] rs[i]).contains_key("FullName"@) && rs[i]["FullName"@] == x,
    decreases rs.len(),
{
    if rs.len() > 0 {
        let rp = rs.drop_last();
        let p = full_names_of(rp);
        lemma_full_names_members(rp, x);
        let r = rs.last();
        assert(rs[rs.len() - 1] == r);
        if full_names_of(rs).contains(x) {
            let k = choose|k: int| 0 <= k < full_names_of(rs).len() && full_names_of(rs)[k] == x;
            if k < p.len() {
                assert(full_names_of(rs)[k] == p[k]);
                assert(p.contains(x));
                let i = choose|i: int|
                    0 <= i < rp.len() && (#[trigger] rp[i]).contains_key("FullName"@) && rp[i]["FullName"@] == x;
                assert(rs[i] == rp[i]);
            }
        }
        if exists|i: int| 0 <= i < rs.len() && (#[trigger] rs[i]).contains_key("FullName"@) && rs[i]["FullName"@] == x {
            let i = choose|i: int|
                0 <= i < rs.len() && (#[trigger] rs[i]).contains_key("FullName"@) && rs[i]["FullName"@] == x;
            if i < rp.len() {
                assert(rp[i] == rs[i]);
                assert(p.contains(x));
                let k = choose|k: int| 0 <= k < p.len() && p[k] == x;
                assert(full_names_of(rs)[k] == x);
            } else {
                assert(full_names_of(rs) == p.push(x));
                assert(full_names_of(rs)[p.len() as int] == x);
            }
        }
    }
}

proof fn lemma_unlisted_is_filter(
    b: Seq<Map<Seq<char>, Seq<char>>>,
    names: Seq<Seq<char>>,
    keep: spec_fn(Map<Seq<char>, Seq<char>>) -> bool,
)
    requires
        forall|r: Map<Seq<char>, Seq<char>>| #[trigger] keep(r) == !already_listed(r, names),
    ensures
        unlisted(b, names) == b.filter(keep),
    decreases b.len(),
{
    reveal(Seq::filter);
    if b.len() > 0 {
        lemma_unlisted_is_filter(b.drop_last(), names, keep);
        assert(keep(b.last()) == !already_listed(b.last(), names));
    }
}

/// The answer to a name query is every last-name record, in order, followed
/// by exactly those first-name records, in order, that have no `FullName` or
/// whose `FullName` no last-name record has.
pub proof fn lemma_merge_is_last_then_new_first(
    by_last: Seq<Map<Seq<char>, Seq<char>>>,
    by_first: Seq<Map<Seq<char>, Seq<char>>>,
)
    ensures
        merged(by_last, by_first) == by_last + by_first.filter(
            |r: Map<Seq<char>, Seq<char>>|
                !(r.contains_key("FullName"@) && exists|i: int|
                    0 <= i < by_last.len() && (#[trigger] by_last[i]).contains_key("FullName"@)
                        && by_last[i]["FullName"@] == r["FullName"@]),
        ),
{
    let keep = |r: Map<Seq<char>, Seq<char>>|
        !(r.contains_key("FullName"@) && exists|i: int|
            0 <= i < by_last.len() && (#[trigger] by_last[i]).contains_key("FullName"@)
                && by_last[i]["FullName"@] == r["FullName"@]);
    let names = full_names_of(by_last);
    assert forall|r: Map<Seq<char>, Seq<char>>| #[trigger] keep(r) == !already_listed(r, names) by {
        if r.contains_key("FullName"@) {
            lemma_full_names_members(by_last, r["FullName"@]);
        }
    }
    lemma_unlisted_is_filter(by_first, names, keep);
}

/// Merging keeps exactly the right attributes: with no stored item the
/// result is the fresh record; otherwise an attribute is in the result
/// exactly when the fresh record has it (and then with the fresh value), or
/// the stored item has it and its name holds no `FullName` (and then with the
/// stored value).
pub proof fn lemma_merge_keeps_stored_attributes(
    existing: Option<Map<Seq<char>, Seq<char>>>,
    fresh: Map<Seq<char>, Seq<char>>,
)
    ensures
        existing is None ==> combined(existing, fresh) == fresh,
        existing matches Some(e) ==> forall|k: Seq<char>|
            {
                let no_full_name = forall|i: int|
                    0 <= i && i + 8 <= k.len() ==> #[trigger] k.subrange(i, i + 8) != "FullName"@;
                &&& #[trigger] combined(existing, fresh).contains_key(k) <==> fresh.contains_key(k) || (
                e.contains_key(k) && no_full_name)
                &&& fresh.contains_key(k) ==> combined(existing, fresh)[k] == fresh[k]
                &&& !fresh.contains_key(k) && e.contains_key(k) && no_full_name ==> combined(existing, fresh)[k]
                    == e[k]
            },
{
    assert("FullName"@.len() == 8) by {
        reveal_strlit("FullName");
    }
    if existing is Some {
        let e = existing->0;
        assert forall|k: Seq<char>|
            mentions_full_name(k) <==> !(forall|i: int|
                0 <= i && i + 8 <= k.len() ==> #[trigger] k.subrange(i, i + 8) != "FullName"@) by {
            if mentions_full_name(k) {
                let i = choose|i: int|
                    0 <= i && i + "FullName"@.len() <= k.len() && #[trigger] k.subrange(i, i + "FullName"@.len())
                        == "FullName"@;
                assert(k.subrange(i, i + 8) == "FullName"@);
            }
            if !(forall|i: int| 0 <= i && i + 8 <= k.len() ==> #[trigger] k.subrange(i, i + 8) != "FullName"@) {
                let i = choose|i: int| 0 <= i && i + 8 <= k.len() && #[trigger] k.subrange(i, i + 8) == "FullName"@;
                assert(k.subrange(i, i + "FullName"@.len()) == "FullName"@);
            }
        }
    }
}

/// A run of characters holding no separator is a single piece.
proof fn lemma_split_single(x: Seq<char>, a: char, b: char)
    requires
        !x.contains(a),
        !x.contains(b),
    ensures
        split_on(x, a, b) == seq![x],
{
    lemma_split_extend(Seq::<char>::empty(), x, a, b);
    assert(Seq::<char>::empty() + x =~= x);
    assert(split_on(Seq::<char>::empty(), a, b) =~= seq![Seq::<char>::empty()]);
    assert(seq![Seq::<char>::empty()].update(0, Seq::<char>::empty() + x) =~= seq![x]);
}

/// Every non-empty run of characters with no space or tab is exactly one
/// word. With `lemma_words_at_blank` and `lemma_words_of_empty` this fixes
/// the words of every line: its non-empty pieces between blanks, in order.
pub proof fn lemma_blank_free_word(x: Seq<char>)
    requires
        x.len() > 0,
        !x.contains(' '),
        !x.contains('\t'),
    ensures
        words_of(x) == seq![x],
{
    lemma_split_single(x, ' ', '\t');
    let ps = seq![x];
    assert(ps.drop_last() =~= Seq::<Seq<char>>::empty());
    assert(ps.last() == x);
    assert(non_empty(Seq::<Seq<char>>::empty()) =~= Seq::<Seq<char>>::empty());
    assert(non_empty(ps) =~= seq![x]);
}

/// An empty text has no lines.
pub proof fn lemma_lines_of_empty()
    ensures
        lines_of(Seq::<char>::empty()) == Seq::<Seq<char>>::empty(),
{
    let e = Seq::<char>::empty();
    assert(split_on(e, '\n', '\n') =~= seq![e]);
    assert(lines_of(e) =~= Seq::<Seq<char>>::empty());
}

/// A text with no newline is one line, kept whole; followed by a newline it
/// is still one line, without a final carriage return.
pub proof fn lemma_lines_single(x: Seq<char>)
    requires
        !x.contains('\n'),
    ensures
        x.len() > 0 ==> lines_of(x) == seq![x],
        lines_of(x + seq!['\n']) == seq![strip_cr(x)],
{
    lemma_split_single(x, '\n', '\n');
    if x.len() > 0 {
        assert(lines_of(x) =~= seq![x]);
    }
    let e = Seq::<char>::empty();
    lemma_split_at_separator(x, '\n', e, '\n', '\n');
    assert(x + seq!['\n'] + e =~= x + seq!['\n']);
    assert(split_on(e, '\n', '\n') =~= seq![e]);
    assert(split_on(x + seq!['\n'], '\n', '\n') =~= seq![x, e]);
    assert(lines_of(x + seq!['\n']) =~= seq![strip_cr(x)]);
}

/// The lines of a text that ends with a newline, followed by another text,
/// are the lines of the first then the lines of the second.
pub proof fn lemma_lines_concat(t1: Seq<char>, t2: Seq<char>)
    requires
        t1.len() > 0,
        t1.last() == '\n',
    ensures
        lines_of(t1 + t2) == lines_of(t1) + lines_of(t2),
{
    let x = t1.drop_last();
    let e = Seq::<char>::empty();
    assert(t1 =~= x + seq!['\n']);
    assert(t1 + t2 =~= x + seq!['\n'] + t2);
    assert(x + seq!['\n'] + e =~= t1);
    lemma_split_at_separator(x, '\n', t2, '\n', '\n');
    lemma_split_at_separator(x, '\n', e, '\n', '\n');
    lemma_split_on_nonempty(x, '\n', '\n');
    lemma_split_on_nonempty(t2, '\n', '\n');
    let xs = split_on(x, '\n', '\n');
    let ys = split_on(t2, '\n', '\n');
    assert(split_on(e, '\n', '\n') =~= seq![e]);
    assert(split_on(t1, '\n', '\n') =~= xs + seq![e]);
    assert(split_on(t1 + t2, '\n', '\n') == xs + ys);
    assert(lines_of(t1) =~= Seq::new(xs.len(), |i: int| strip_cr(xs[i])));
    let l1 = lines_of(t1);
    let l2 = lines_of(t2);
    let l = lines_of(t1 + t2);
    assert(l.len() == l1.len() + l2.len());
    assert forall|i: int| 0 <= i < l.len() implies l[i] == (l1 + l2)[i] by {
        if i < xs.len() {
            assert((xs + ys)[i] == xs[i]);
        } else {
            assert((xs + ys)[i] == ys[i - xs.len()]);
        }
    }
    assert(l =~= l1 + l2);
}

/// A newline after a last line that ends in neither a newline nor a carriage
/// return does not change the lines.
pub proof fn lemma_lines_final_newline(text: Seq<char>)
    requires
        text.len() > 0,
        text.last() != '\n',
        text.last() != '\r',
    ensures
        lines_of(text + seq!['\n']) == lines_of(text),
{
    let e = Seq::<char>::empty();
    lemma_split_at_separator(text, '\n', e, '\n', '\n');
    assert(text + seq!['\n'] + e =~= text + seq!['\n']);
    assert(split_on(e, '\n', '\n') =~= seq![e]);
    lemma_split_on_nonempty(text.drop_last(), '\n', '\n');
    let ps = split_on(text, '\n', '\n');
    let pp = split_on(text.drop_last(), '\n', '\n');
    assert(ps == pp.update(pp.len() - 1, pp.last().push(text.last())));
    assert(ps.last() == pp.last().push(text.last()));
    assert(ps.last().len() > 0);
    assert(ps.last().last() == text.last());
    assert(strip_cr(ps.last()) == ps.last());
    assert(split_on(text + seq!['\n'], '\n', '\n') =~= ps + seq![e]);
    assert(lines_of(text + seq!['\n']) =~= lines_of(text));
}

/// An empty file is accepted.
pub proof fn lemma_empty_file_names_people()
    ensures
        lines_name_people(Seq::<char>::empty()),
{
    lemma_lines_of_empty();
}

/// A one-line file is accepted exactly when its line has two words or more,
/// whether or not a newline ends it.
pub proof fn lemma_single_line_names_people(x: Seq<char>)
    requires
        !x.contains('\n'),
    ensures
        x.len() > 0 ==> (lines_name_people(x) <==> words_of(x).len() >= 2),
        lines_name_people(x + seq!['\n']) <==> words_of(strip_cr(x)).len() >= 2,
{
    lemma_lines_single(x);
    if x.len() > 0 {
        assert(lines_of(x)[0] == x);
    }
    assert(lines_of(x + seq!['\n'])[0] == strip_cr(x));
}

/// Joining two files (the first ending in a newline) gives a file that is
/// accepted exactly when both are.
pub proof fn lemma_joined_files_name_people(t1: Seq<char>, t2: Seq<char>)
    requires
        t1.len() > 0,
        t1.last() == '\n',
    ensures
        lines_name_people(t1 + t2) <==> lines_name_people(t1) && lines_name_people(t2),
{
    lemma_lines_concat(t1, t2);
    let l1 = lines_of(t1);
    let l2 = lines_of(t2);
    if lines_name_people(t1 + t2) {
        assert forall|i: int| 0 <= i < l1.len() implies #[trigger] words_of(l1[i]).len() >= 2 by {
            assert(lines_of(t1 + t2)[i] == l1[i]);
            assert(words_of(lines_of(t1 + t2)[i]).len() >= 2);
        }
        assert forall|i: int| 0 <= i < l2.len() implies #[trigger] words_of(l2[i]).len() >= 2 by {
            assert(lines_of(t1 + t2)[l1.len() + i] == l2[i]);
            assert(words_of(lines_of(t1 + t2)[l1.len() + i]).len() >= 2);
        }
    }
    if lines_name_people(t1) && lines_name_people(t2) {
        assert forall|i: int| 0 <= i < lines_of(t1 + t2).len() implies #[trigger] words_of(
            lines_of(t1 + t2)[i],
        ).len() >= 2 by {
            if i < l1.len() {
                assert(lines_of(t1 + t2)[i] == l1[i]);
                assert(words_of(l1[i]).len() >= 2);
            } else {
                assert(lines_of(t1 + t2)[i] == l2[i - l1.len()]);
                assert(words_of(l2[i - l1.len()]).len() >= 2);
            }
        }
    }
}

/// Adding a newline after a last line that ends in neither a newline nor a
/// carriage return does not change whether the file is accepted.
pub proof fn lemma_final_newline_keeps_acceptance(text: Seq<char>)
    requires
        text.len() > 0,
        text.last() != '\n',
        text.last() != '\r',
    ensures
        lines_name_people(text + seq!['\n']) == lines_name_people(text),
{
    lemma_lines_final_newline(text);
}

/// A carriage return right before a line's newline is not part of the line.
pub proof fn lemma_crlf_line(x: Seq<char>)
    requires
        !x.contains('\n'),
    ensures
        lines_of(x + seq!['\r', '\n']) == seq![x],
        (x.len() == 0 || x.last() != '\r') ==> lines_of(x + seq!['\n']) == seq![x],
{
    let xr = x + seq!['\r'];
    assert(!xr.contains('\n')) by {
        if xr.contains('\n') {
            let k = choose|k: int| 0 <= k < xr.len() && xr[k] == '\n';
            assert(x[k] == '\n');
        }
    }
    lemma_lines_single(xr);
    assert(xr + seq!['\n'] =~= x + seq!['\r', '\n']);
    assert(xr.drop_last() =~= x);
    lemma_lines_single(x);
}

/// The attribute name of a part is the text before its first `=`, and its
/// value the text between its first and second `=` (or its end).
pub proof fn lemma_key_value(k: Seq<char>, v: Seq<char>, rest: Seq<char>)
    requires
        !k.contains('='),
        !v.contains('='),
    ensures
        key_of(k + seq!['='] + v) == k,
        value_of(k + seq!['='] + v) == v,
        key_of(k + seq!['='] + v + seq!['='] + rest) == k,
        value_of(k + seq!['='] + v + seq!['='] + rest) == v,
{
    lemma_split_joined(k, v, '=');
    lemma_split_at_separator(k, '=', v + seq!['='] + rest, '=', '=');
    lemma_split_at_separator(v, '=', rest, '=', '=');
    lemma_split_single(k, '=', '=');
    lemma_split_single(v, '=', '=');
    assert(k + seq!['='] + v + seq!['='] + rest =~= k + seq!['='] + (v + seq!['='] + rest));
    let s = split_on(k + seq!['='] + (v + seq!['='] + rest), '=', '=');
    assert(s == seq![k] + (seq![v] + split_on(rest, '=', '=')));
    assert(s[0] == k && s[1] == v);
}

/// The attributes of a line are those of its first words overridden by those
/// of its later words.
pub proof fn lemma_record_concat(ws1: Seq<Seq<char>>, ws2: Seq<Seq<char>>)
    ensures
        record_of(ws1 + ws2) == record_of(ws1).union_prefer_right(record_of(ws2)),
    decreases ws2.len(),
{
    if ws2.len() == 0 {
        assert(ws1 + ws2 =~= ws1);
        assert(record_of(ws1).union_prefer_right(record_of(ws2)) =~= record_of(ws1));
    } else {
        lemma_record_concat(ws1, ws2.drop_last());
        assert((ws1 + ws2).drop_last() =~= ws1 + ws2.drop_last());
        assert((ws1 + ws2).last() == ws2.last());
        let w = ws2.last();
        if w.contains('=') {
            assert(record_of(ws1 + ws2) =~= record_of(ws1).union_prefer_right(record_of(ws2)));
        }
    }
}

/// A single word sets its attribute when it holds a `=`, and nothing else.
pub proof fn lemma_record_one_word(w: Seq<char>)
    ensures
        w.contains('=') ==> record_of(seq![w]) == Map::<Seq<char>, Seq<char>>::empty().insert(key_of(w), value_of(w)),
        !w.contains('=') ==> record_of(seq![w]) == Map::<Seq<char>, Seq<char>>::empty(),
{
    let ws = seq![w];
    assert(ws.drop_last() =~= Seq::<Seq<char>>::empty());
    assert(ws.last() == w);
    assert(record_of(ws.drop_last()) =~= Map::<Seq<char>, Seq<char>>::empty());
    if w.contains('=') {
        assert(record_of(ws) =~= Map::<Seq<char>, Seq<char>>::empty().insert(key_of(w), value_of(w)));
    } else {
        assert(record_of(ws) =~= Map::<Seq<char>, Seq<char>>::empty());
    }
}

proof fn lemma_table_concat(l1: Seq<Seq<char>>, l2: Seq<Seq<char>>)
    ensures
        table_of(l1 + l2) == table_of(l1).union_prefer_right(table_of(l2)),
    decreases l2.len(),
{
    if l2.len() == 0 {
        assert(l1 + l2 =~= l1);
        assert(table_of(l1).union_prefer_right(table_of(l2)) =~= table_of(l1));
    } else {
        lemma_table_concat(l1, l2.drop_last());
        assert((l1 + l2).drop_last() =~= l1 + l2.drop_last());
        assert((l1 + l2).last() == l2.last());
        assert(table_of(l1 + l2) =~= table_of(l1).union_prefer_right(table_of(l2)));
    }
}

/// The table of two files joined (the first ending in a newline) is the
/// first file's table with the second file's records added, a record of the
/// second replacing one of the first with the same name.
pub proof fn lemma_parsed_concat(t1: Seq<char>, t2: Seq<char>)
    requires
        t1.len() > 0,
        t1.last() == '\n',
    ensures
        parsed(t1 + t2) == parsed(t1).union_prefer_right(parsed(t2)),
{
    lemma_lines_concat(t1, t2);
    lemma_table_concat(lines_of(t1), lines_of(t2));
}

/// A file of one line with two words or more gives one record, stored under
/// the first word, a space and the second word, unless one of those two
/// words holds a `=`, in which case the table is empty.
pub proof fn lemma_parsed_one_line(x: Seq<char>)
    requires
        x.len() > 0,
        !x.contains('\n'),
        words_of(x).len() >= 2,
    ensures
        (words_of(x)[0].contains('=') || words_of(x)[1].contains('=')) ==> parsed(x) == Map::<
            Seq<char>,
            Map<Seq<char>, Seq<char>>,
        >::empty(),
        !(words_of(x)[0].contains('=') || words_of(x)[1].contains('=')) ==> parsed(x) == Map::<
            Seq<char>,
            Map<Seq<char>, Seq<char>>,
        >::empty().insert(words_of(x)[0] + seq![' '] + words_of(x)[1], record_of(words_of(x))),
{
    lemma_lines_single(x);
    let ls = lines_of(x);
    assert(ls.drop_last() =~= Seq::<Seq<char>>::empty());
    assert(ls.last() == x);
    let ws = words_of(x);
    let n = ws[0] + seq![' '] + ws[1];
    assert(name_of(ws) == n);
    if n.contains('=') {
        let k = choose|k: int| 0 <= k < n.len() && n[k] == '=';
        if k < ws[0].len() {
            assert(ws[0][k] == '=');
        } else if k > ws[0].len() {
            assert(ws[1][k - ws[0].len() - 1] == '=');
        }
    }
    if ws[0].contains('=') {
        let k = choose|k: int| 0 <= k < ws[0].len() && ws[0][k] == '=';
        assert(n[k] == '=');
    }
    if ws[1].contains('=') {
        let k = choose|k: int| 0 <= k < ws[1].len() && ws[1][k] == '=';
        assert(n[ws[0].len() + 1 + k] == '=');
    }
    let e = Map::<Seq<char>, Map<Seq<char>, Seq<char>>>::empty();
    assert(table_of(ls.drop_last()) =~= e);
    assert(ls[0] == x);
    if n.contains('=') {
        assert(parsed(x) =~= e);
    } else {
        assert(parsed(x) =~= e.insert(n, record_of(ws)));
    }
}

/// The item written for a person whose full name is two words `w0`, `w1`
/// joined by a space holds the full name, `w0` as last name and `w1` as first
/// name, each overridden by an attribute of the same name in the record.
pub proof fn lemma_item_names(w0: Seq<char>, w1: Seq<char>, rec: Map<Seq<char>, Seq<char>>)
    requires
        !w0.contains(' '),
        !w1.contains(' '),
    ensures
        item_of(w0 + seq![' '] + w1, rec) == Map::<Seq<char>, Seq<char>>::empty().insert(
            "FullName"@,
            w0 + seq![' '] + w1,
        ).insert("Last-Name"@, w0).insert("First-Name"@, w1).union_prefer_right(rec),
{
    lemma_split_joined(w0, w1, ' ');
}

} // verus!

//! Parsing the name file: one person per line, `Last First key=value ...`.
use vstd::prelude::*;
use crate::text::{split_on, lines_of, words_of, views, lemma_split_on_two_pieces, split_lines, split_words, split_chars, has_char};
use crate::record::{Record, NameTable};

verus! {

broadcast use vstd::string::group_string_axioms;

/// The full name of a line with words `ws`: its first two words joined by a
/// space.
pub open spec fn name_of(ws: Seq<Seq<char>>) -> Seq<char> {
    ws[0] + seq![' '] + ws[1]
}

/// The attribute name of a `key=value` part: the text before its first `=`.
pub open spec fn key_of(part: Seq<char>) -> Seq<char> {
    split_on(part, '=', '=')[0]
}

/// The attribute value of a `key=value` part: the text between its first and
/// second `=` (or its end).
pub open spec fn value_of(part: Seq<char>) -> Seq<char> {
    split_on(part, '=', '=')[1]
}

/// The attributes of a line with words `ws`: every word holding a `=` sets
/// its key to its value, a later word overriding an earlier one.
pub open spec fn record_of(ws: Seq<Seq<char>>) -> Map<Seq<char>, Seq<char>>
    decreases ws.len(),
{
    if ws.len() == 0 {
        Map::<Seq<char>, Seq<char>>::empty()
    } else {
        let m = record_of(ws.drop_last());
        let w = ws.last();
        if w.contains('=') {
            m.insert(key_of(w), value_of(w))
        } else {
            m
        }
    }
}

/// The table read from `lines`: each line whose name holds no `=` stores its
/// attributes under its name, a later line replacing an earlier one with
/// the same name; a line whose name holds a `=` is skipped.
pub open spec fn table_of(lines: Seq<Seq<char>>) -> Map<Seq<char>, Map<Seq<char>, Seq<char>>>
    decreases lines.len(),
{
    if lines.len() == 0 {
        Map::<Seq<char>, Map<Seq<char>, Seq<char>>>::empty()
    } else {
        let t = table_of(lines.drop_last());
        let ws = words_of(lines.last());
        if name_of(ws).contains('=') {
            t
        } else {
            t.insert(name_of(ws), record_of(ws))
        }
    }
}

/// Every line of `text` has at least two words, so that it names a person.
pub open spec fn lines_name_people(text: Seq<char>) -> bool {
    forall|i: int| 0 <= i < lines_of(text).len() ==> #[trigger] words_of(lines_of(text)[i]).len() >= 2
}

/// A full name as the name file gives it: two non-empty words joined by one
/// space, holding no tab and no `=`.
pub open spec fn is_person_name(n: Seq<char>) -> bool {
    let parts = split_on(n, ' ', ' ');
    &&& parts.len() == 2
    &&& parts[0].len() > 0
    &&& parts[1].len() > 0
    &&& n == parts[0] + seq![' '] + parts[1]
    &&& !n.contains('\t')
    &&& !n.contains('=')
}

/// The table that the name file `text` describes.
pub open spec fn parsed(text: Seq<char>) -> Map<Seq<char>, Map<Seq<char>, Seq<char>>> {
    table_of(lines_of(text))
}

/// Whether every line of `text` has at least two words.
pub fn lines_have_names(text: &str) -> (ok: bool)
    ensures
        ok == lines_name_people(text@),
{
    let lines = split_lines(text);
    let ghost ls = lines_of(text@);
    let mut i: usize = 0;
    while i < lines.len()
        invariant
            views(lines@) == ls,
            ls == lines_of(text@),
            i <= lines.len(),
            forall|k: int| 0 <= k < i ==> #[trigger] words_of(ls[k]).len() >= 2,
        decreases lines.len() - i,
    {
        let ws = split_words(lines[i].as_str());
        proof {
            assert(ls[i as int] == lines@[i as int]@);
        }
        if ws.len() < 2 {
            proof {
                assert(views(ws@).len() == ws@.len());
            }
            return false;
        }
        i = i + 1;
    }
    true
}

/// The attributes of the line with words `words`.
fn line_record(words: &Vec<String>) -> (r: Record)
    ensures
        r@ == record_of(views(words@)),
{
    let ghost ws = views(words@);
    let mut r = Record::new();
    let mut j: usize = 0;
    proof {
        assert(ws.take(0) =~= Seq::<Seq<char>>::empty());
    }
    while j < words.len()
        invariant
            ws == views(words@),
            j <= words.len(),
            r@ == record_of(ws.take(j as int)),
        decreases words.len() - j,
    {
        proof {
            assert(ws.take(j + 1).drop_last() =~= ws.take(j as int));
            assert(ws.take(j + 1).last() == words@[j as int]@);
        }
        let w = words[j].as_str();
        if has_char(w, '=') {
            let kv = split_chars(w, '=', '=');
            proof {
                lemma_split_on_two_pieces(w@, '=', '=');
                assert(views(kv@)[0] == kv@[0]@);
                assert(views(kv@)[1] == kv@[1]@);
            }
            r.insert(kv[0].clone(), kv[1].clone());
        }
        j = j + 1;
    }
    proof {
        assert(ws.take(words.len() as int) =~= ws);
    }
    r
}

/// Reads the name file `text` into a table of records keyed by full name.
/// Each line is `Last First key=value ...`: words are separated by spaces
/// and tabs; the full name is the first two words joined by one space; every
/// later word holding a `=` sets the attribute before its first `=` to the
/// text up to the next `=`. A line whose name holds a `=` is skipped; a later
/// line for the same name replaces the earlier record.
pub fn parse_input_file(text: &str) -> (table: NameTable)
    requires
        lines_name_people(text@),
    ensures
        table@ == parsed(text@),
{
    let lines = split_lines(text);
    let ghost ls = lines_of(text@);
    let mut table = NameTable::new();
    let mut i: usize = 0;
    proof {
        assert(ls.take(0) =~= Seq::<Seq<char>>::empty());
        reveal_strlit(" ");
        assert(" "@ =~= seq![' ']);
    }
    while i < lines.len()
        invariant
            views(lines@) == ls,
            ls == lines_of(text@),
            lines_name_people(text@),
            " "@ == seq![' '],
            i <= lines.len(),
            table@ == table_of(ls.take(i as int)),
        decreases lines.len() - i,
    {
        proof {
            assert(ls.take(i + 1).drop_last() =~= ls.take(i as int));
            assert(ls.take(i + 1).last() == ls[i as int]);
            assert(ls[i as int] == lines@[i as int]@);
            assert(words_of(ls[i as int]).len() >= 2);
        }
        let words = split_words(lines[i].as_str());
        let ghost ws = views(words@);
        let mut name = words[0].clone();
        name.append(" ");
        name.append(words[1].as_str());
        proof {
            assert(ws[0] == words@[0]@);
            assert(ws[1] == words@[1]@);
            assert(name@ =~= name_of(ws));
        }
        if !has_char(name.as_str(), '=') {
            let record = line_record(&words);
            table.insert(name, record);
        }
        i = i + 1;
    }
    proof {
        assert(ls.take(lines.len() as int) =~= ls);
    }
    table
}

} // verus!

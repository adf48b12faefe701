//! Character-level model of the input text: how it splits into lines, words
//! and `key=value` parts, stated over `Seq<char>`, with the executable scans
//! that compute the same splits.
use vstd::prelude::*;

verus! {

broadcast use vstd::string::group_string_axioms;

/// The pieces of `s` between occurrences of the separators `a` or `b`
/// (`str::split` on a set of characters): always at least one piece,
/// empty pieces kept.
pub open spec fn split_on(s: Seq<char>, a: char, b: char) -> Seq<Seq<char>>
    decreases s.len(),
{
    if s.len() == 0 {
        seq![Seq::<char>::empty()]
    } else {
        let p = split_on(s.drop_last(), a, b);
        let c = s.last();
        if c == a || c == b {
            p.push(Seq::<char>::empty())
        } else {
            p.update(p.len() - 1, p.last().push(c))
        }
    }
}

/// The pieces of `ps` that are not empty, in order.
pub open spec fn non_empty(ps: Seq<Seq<char>>) -> Seq<Seq<char>>
    decreases ps.len(),
{
    if ps.len() == 0 {
        Seq::<Seq<char>>::empty()
    } else {
        let r = non_empty(ps.drop_last());
        if ps.last().len() > 0 {
            r.push(ps.last())
        } else {
            r
        }
    }
}

/// `line` without one trailing carriage return.
pub open spec fn strip_cr(line: Seq<char>) -> Seq<char> {
    if line.len() > 0 && line.last() == '\r' {
        line.drop_last()
    } else {
        line
    }
}

/// The lines of `s` as `str::lines` yields them: split at `'\n'`, a final
/// empty piece dropped, and a `'\r'` removed from the end of every line that
/// a `'\n'` ended.
pub open spec fn lines_of(s: Seq<char>) -> Seq<Seq<char>> {
    let pieces = split_on(s, '\n', '\n');
    let kept = if pieces.last().len() == 0 {
        (pieces.len() - 1) as nat
    } else {
        pieces.len()
    };
    Seq::new(
        kept,
        |i: int|
            if i < pieces.len() - 1 {
                strip_cr(pieces[i])
            } else {
                pieces[i]
            },
    )
}

/// The words of a line: its non-empty pieces between spaces and tabs.
pub open spec fn words_of(line: Seq<char>) -> Seq<Seq<char>> {
    non_empty(split_on(line, ' ', '\t'))
}

/// The views of a sequence of strings.
pub open spec fn views(v: Seq<String>) -> Seq<Seq<char>> {
    v.map_values(|s: String| s@)
}

pub proof fn lemma_split_on_nonempty(s: Seq<char>, a: char, b: char)
    ensures
        split_on(s, a, b).len() >= 1,
    decreases s.len(),
{
    if s.len() > 0 {
        lemma_split_on_nonempty(s.drop_last(), a, b);
    }
}

pub proof fn lemma_split_on_two_pieces(s: Seq<char>, a: char, b: char)
    requires
        s.contains(a),
    ensures
        split_on(s, a, b).len() >= 2,
    decreases s.len(),
{
    lemma_split_on_nonempty(s, a, b);
    if s.last() != a && s.last() != b {
        let k = choose|k: int| 0 <= k < s.len() && s[k] == a;
        assert(s.drop_last()[k] == a);
        lemma_split_on_two_pieces(s.drop_last(), a, b);
    } else {
        lemma_split_on_nonempty(s.drop_last(), a, b);
    }
}

pub proof fn lemma_split_pieces_free(s: Seq<char>, a: char, b: char)
    ensures
        forall|i: int|
            0 <= i < split_on(s, a, b).len() ==> !(#[trigger] split_on(s, a, b)[i]).contains(a)
                && !split_on(s, a, b)[i].contains(b),
    decreases s.len(),
{
    lemma_split_on_nonempty(s, a, b);
    if s.len() > 0 {
        let p = split_on(s.drop_last(), a, b);
        lemma_split_pieces_free(s.drop_last(), a, b);
        lemma_split_on_nonempty(s.drop_last(), a, b);
        let c = s.last();
        if !(c == a || c == b) {
            let q = split_on(s, a, b);
            assert forall|i: int| 0 <= i < q.len() implies !(#[trigger] q[i]).contains(a) && !q[i].contains(b) by {
                if i == q.len() - 1 {
                    let l = p.last();
                    assert(q[i] == l.push(c));
                    assert(!l.contains(a) && !l.contains(b));
                    if q[i].contains(a) || q[i].contains(b) {
                        let k = choose|k: int| 0 <= k < q[i].len() && (q[i][k] == a || q[i][k] == b);
                        if k < l.len() {
                            assert(l[k] == q[i][k]);
                        }
                    }
                } else {
                    assert(q[i] == p[i]);
                }
            }
        } else {
            let q = split_on(s, a, b);
            assert forall|i: int| 0 <= i < q.len() implies !(#[trigger] q[i]).contains(a) && !q[i].contains(b) by {
                if i < p.len() {
                    assert(q[i] == p[i]);
                } else {
                    assert(q[i] =~= Seq::<char>::empty());
                }
            }
        }
    }
}

pub proof fn lemma_non_empty_elems(ps: Seq<Seq<char>>)
    ensures
        forall|i: int|
            0 <= i < non_empty(ps).len() ==> (#[trigger] non_empty(ps)[i]).len() > 0 && exists|j: int|
                0 <= j < ps.len() && ps[j] == non_empty(ps)[i],
    decreases ps.len(),
{
    if ps.len() > 0 {
        let pp = ps.drop_last();
        lemma_non_empty_elems(pp);
        let r = non_empty(pp);
        assert forall|i: int| 0 <= i < non_empty(ps).len() implies (#[trigger] non_empty(ps)[i]).len() > 0
            && exists|j: int| 0 <= j < ps.len() && ps[j] == non_empty(ps)[i] by {
            if i < r.len() {
                assert(non_empty(ps)[i] == r[i]);
                let j = choose|j: int| 0 <= j < pp.len() && pp[j] == r[i];
                assert(ps[j] == pp[j]);
            } else {
                assert(non_empty(ps)[i] == ps.last());
                assert(ps[ps.len() - 1] == ps.last());
            }
        }
    }
}

/// Every word of a line is non-empty and holds no space or tab.
pub proof fn lemma_words_are_blank_free(line: Seq<char>)
    ensures
        forall|i: int|
            0 <= i < words_of(line).len() ==> (#[trigger] words_of(line)[i]).len() > 0
                && !words_of(line)[i].contains(' ') && !words_of(line)[i].contains('\t'),
{
    let ps = split_on(line, ' ', '\t');
    lemma_split_pieces_free(line, ' ', '\t');
    lemma_non_empty_elems(ps);
    assert forall|i: int| 0 <= i < words_of(line).len() implies (#[trigger] words_of(line)[i]).len() > 0
        && !words_of(line)[i].contains(' ') && !words_of(line)[i].contains('\t') by {
        let j = choose|j: int| 0 <= j < ps.len() && ps[j] == non_empty(ps)[i];
        assert(!ps[j].contains(' ') && !ps[j].contains('\t'));
    }
}

pub proof fn lemma_split_extend(z: Seq<char>, y: Seq<char>, a: char, b: char)
    requires
        !y.contains(a),
        !y.contains(b),
    ensures
        split_on(z + y, a, b) == split_on(z, a, b).update(
            split_on(z, a, b).len() - 1,
            split_on(z, a, b).last() + y,
        ),
    decreases y.len(),
{
    lemma_split_on_nonempty(z, a, b);
    let p = split_on(z, a, b);
    if y.len() == 0 {
        assert(z + y =~= z);
        assert(p.last() + y =~= p.last());
        assert(p.update(p.len() - 1, p.last() + y) =~= p);
    } else {
        let yp = y.drop_last();
        assert(!yp.contains(a) && !yp.contains(b)) by {
            if yp.contains(a) || yp.contains(b) {
                let k = choose|k: int| 0 <= k < yp.len() && (yp[k] == a || yp[k] == b);
                assert(y[k] == yp[k]);
            }
        }
        lemma_split_extend(z, yp, a, b);
        assert((z + y).drop_last() =~= z + yp);
        assert((z + y).last() == y.last());
        assert(y[y.len() - 1] == y.last());
        let q = split_on(z + yp, a, b);
        assert(q.last() == p.last() + yp);
        assert((p.last() + yp).push(y.last()) =~= p.last() + y);
        assert(split_on(z + y, a, b) =~= p.update(p.len() - 1, p.last() + y));
    }
}

/// Two words free of `a` and `b`, joined by `a`, split back into those two
/// words.
pub proof fn lemma_split_joined(x: Seq<char>, y: Seq<char>, a: char)
    requires
        !x.contains(a),
        !y.contains(a),
    ensures
        split_on(x + seq![a] + y, a, a) == seq![x, y],
{
    lemma_split_extend(Seq::<char>::empty(), x, a, a);
    assert(Seq::<char>::empty() + x =~= x);
    assert(split_on(x, a, a) =~= seq![x]);
    let z = x + seq![a];
    assert(z.drop_last() =~= x);
    assert(z.last() == a);
    assert(split_on(z, a, a) =~= seq![x, Seq::<char>::empty()]);
    lemma_split_extend(z, y, a, a);
    assert(Seq::<char>::empty() + y =~= y);
    assert(split_on(z + y, a, a) =~= seq![x, y]);
}

/// Splitting at a separator splits the two sides independently.
pub proof fn lemma_split_at_separator(x: Seq<char>, c: char, y: Seq<char>, a: char, b: char)
    requires
        c == a || c == b,
    ensures
        split_on(x + seq![c] + y, a, b) == split_on(x, a, b) + split_on(y, a, b),
    decreases y.len(),
{
    let z = x + seq![c];
    assert(z.drop_last() =~= x);
    assert(z.last() == c);
    if y.len() == 0 {
        assert(z + y =~= z);
        assert(split_on(x, a, b) + split_on(y, a, b) =~= split_on(x, a, b).push(Seq::<char>::empty()));
    } else {
        let yp = y.drop_last();
        let d = y.last();
        lemma_split_at_separator(x, c, yp, a, b);
        lemma_split_on_nonempty(yp, a, b);
        assert((z + y).drop_last() =~= z + yp);
        assert((z + y).last() == d);
        let left = split_on(x, a, b);
        let right = split_on(yp, a, b);
        if d == a || d == b {
            assert((left + right).push(Seq::<char>::empty()) =~= left + right.push(Seq::<char>::empty()));
        } else {
            assert((left + right).update((left + right).len() - 1, (left + right).last().push(d)) =~= left
                + right.update(right.len() - 1, right.last().push(d)));
        }
    }
}

pub proof fn lemma_non_empty_concat(p: Seq<Seq<char>>, q: Seq<Seq<char>>)
    ensures
        non_empty(p + q) == non_empty(p) + non_empty(q),
    decreases q.len(),
{
    if q.len() == 0 {
        assert(p + q =~= p);
        assert(non_empty(p) + non_empty(q) =~= non_empty(p));
    } else {
        lemma_non_empty_concat(p, q.drop_last());
        assert((p + q).drop_last() =~= p + q.drop_last());
        assert((p + q).last() == q.last());
        if q.last().len() > 0 {
            assert((non_empty(p) + non_empty(q.drop_last())).push(q.last()) =~= non_empty(p) + non_empty(
                q.drop_last(),
            ).push(q.last()));
        }
    }
}

/// An empty line has no words.
pub proof fn lemma_words_of_empty()
    ensures
        words_of(Seq::<char>::empty()) == Seq::<Seq<char>>::empty(),
{
    let e = Seq::<char>::empty();
    let ps = split_on(e, ' ', '\t');
    assert(ps =~= seq![e]);
    assert(ps.drop_last() =~= Seq::<Seq<char>>::empty());
    assert(non_empty(ps.drop_last()) =~= Seq::<Seq<char>>::empty());
    assert(ps.last().len() == 0);
}

/// A blank (space or tab) splits a line's words into those before it and
/// those after it: the words of `x`, blank, `y` are the words of `x`
/// followed by the words of `y`.
pub proof fn lemma_words_at_blank(x: Seq<char>, c: char, y: Seq<char>)
    requires
        c == ' ' || c == '\t',
    ensures
        words_of(x + seq![c] + y) == words_of(x) + words_of(y),
{
    lemma_split_at_separator(x, c, y, ' ', '\t');
    lemma_non_empty_concat(split_on(x, ' ', '\t'), split_on(y, ' ', '\t'));
}

/// `p` occurs in `s` as a contiguous run of characters.
pub open spec fn has_infix(s: Seq<char>, p: Seq<char>) -> bool {
    exists|i: int| 0 <= i && i + p.len() <= s.len() && #[trigger] s.subrange(i, i + p.len()) == p
}

/// The characters of `s`, in order.
pub fn chars_of(s: &str) -> (cs: Vec<char>)
    ensures
        cs@ == s@,
{
    let mut cs: Vec<char> = Vec::new();
    for c in it: s.chars()
        invariant
            cs@ == it.seq().take(it.index()),
            it.seq() == s@,
    {
        cs.push(c);
    }
    cs
}

/// The characters `from..to` of `s` as a new string.
pub fn slice_string(s: &str, from: usize, to: usize) -> (r: String)
    requires
        from <= to <= s@.len(),
    ensures
        r@ == s@.subrange(from as int, to as int),
{
    s.substring_char(from, to).to_owned()
}

/// The lines of `text`, split as `str::lines` splits them.
pub fn split_lines(text: &str) -> (lines: Vec<String>)
    ensures
        views(lines@) == lines_of(text@),
{
    let cs = chars_of(text);
    let n = cs.len();
    let mut lines: Vec<String> = Vec::new();
    let mut start: usize = 0;
    let mut i: usize = 0;
    proof {
        assert(text@.take(0) =~= Seq::<char>::empty());
    }
    while i < n
        invariant
            cs@ == text@,
            n == cs@.len(),
            start <= i <= n,
            split_on(text@.take(i as int), '\n', '\n').len() >= 1,
            split_on(text@.take(i as int), '\n', '\n').last() == text@.subrange(start as int, i as int),
            views(lines@) =~= Seq::new(
                (split_on(text@.take(i as int), '\n', '\n').len() - 1) as nat,
                |k: int| strip_cr(split_on(text@.take(i as int), '\n', '\n')[k]),
            ),
        decreases n - i,
    {
        let ghost p = split_on(text@.take(i as int), '\n', '\n');
        let c = cs[i];
        proof {
            assert(text@.take(i + 1).drop_last() =~= text@.take(i as int));
            assert(text@.take(i + 1).last() == c);
        }
        if c == '\n' {
            let mut end = i;
            if end > start && cs[end - 1] == '\r' {
                end = end - 1;
            }
            let line = slice_string(text, start, end);
            proof {
                let piece = text@.subrange(start as int, i as int);
                assert(strip_cr(piece) =~= text@.subrange(start as int, end as int));
            }
            let ghost before = lines@;
            lines.push(line);
            proof {
                assert(views(lines@) =~= views(before).push(strip_cr(p.last())));
            }
            start = i + 1;
            i = i + 1;
            proof {
                let q = split_on(text@.take(i as int), '\n', '\n');
                assert(q == p.push(Seq::<char>::empty()));
                assert(text@.subrange(start as int, i as int) =~= Seq::<char>::empty());
                assert(views(lines@) =~= Seq::new(
                    (q.len() - 1) as nat,
                    |k: int| strip_cr(q[k]),
                ));
            }
        } else {
            i = i + 1;
            proof {
                let q = split_on(text@.take(i as int), '\n', '\n');
                assert(q == p.update(p.len() - 1, p.last().push(c)));
                assert(text@.subrange(start as int, i as int) =~= text@.subrange(
                    start as int,
                    (i - 1) as int,
                ).push(c));
                assert(views(lines@) =~= Seq::new(
                    (q.len() - 1) as nat,
                    |k: int| strip_cr(q[k]),
                ));
            }
        }
    }
    proof {
        assert(text@.take(n as int) =~= text@);
    }
    let ghost before = lines@;
    if start < n {
        let last = slice_string(text, start, n);
        lines.push(last);
        proof {
            assert(views(lines@) =~= views(before).push(last@));
        }
    }
    proof {
        let p = split_on(text@, '\n', '\n');
        assert(views(lines@) =~= lines_of(text@));
    }
    lines
}

/// The pieces of `s` between occurrences of `a` or `b` (`str::split`).
pub fn split_chars(s: &str, a: char, b: char) -> (pieces: Vec<String>)
    ensures
        views(pieces@) == split_on(s@, a, b),
{
    let cs = chars_of(s);
    let n = cs.len();
    let mut pieces: Vec<String> = Vec::new();
    let mut start: usize = 0;
    let mut i: usize = 0;
    proof {
        assert(s@.take(0) =~= Seq::<char>::empty());
    }
    while i < n
        invariant
            cs@ == s@,
            n == cs@.len(),
            start <= i <= n,
            split_on(s@.take(i as int), a, b).len() >= 1,
            split_on(s@.take(i as int), a, b).last() == s@.subrange(start as int, i as int),
            views(pieces@) =~= split_on(s@.take(i as int), a, b).drop_last(),
        decreases n - i,
    {
        let ghost p = split_on(s@.take(i as int), a, b);
        let c = cs[i];
        proof {
            assert(s@.take(i + 1).drop_last() =~= s@.take(i as int));
            assert(s@.take(i + 1).last() == c);
        }
        if c == a || c == b {
            let piece = slice_string(s, start, i);
            let ghost before = pieces@;
            pieces.push(piece);
            proof {
                assert(views(pieces@) =~= views(before).push(p.last()));
            }
            start = i + 1;
            i = i + 1;
            proof {
                let q = split_on(s@.take(i as int), a, b);
                assert(q == p.push(Seq::<char>::empty()));
                assert(s@.subrange(start as int, i as int) =~= Seq::<char>::empty());
                assert(q.drop_last() =~= p);
            }
        } else {
            i = i + 1;
            proof {
                let q = split_on(s@.take(i as int), a, b);
                assert(q == p.update(p.len() - 1, p.last().push(c)));
                assert(s@.subrange(start as int, i as int) =~= s@.subrange(
                    start as int,
                    (i - 1) as int,
                ).push(c));
                assert(q.drop_last() =~= p.drop_last());
            }
        }
    }
    proof {
        assert(s@.take(n as int) =~= s@);
    }
    let last = slice_string(s, start, n);
    let ghost before = pieces@;
    pieces.push(last);
    proof {
        let p = split_on(s@, a, b);
        assert(views(pieces@) =~= views(before).push(last@));
        assert(p =~= p.drop_last().push(p.last()));
    }
    pieces
}

/// The words of `line`: split at spaces and tabs, empty pieces dropped.
pub fn split_words(line: &str) -> (words: Vec<String>)
    ensures
        views(words@) == words_of(line@),
{
    let pieces = split_chars(line, ' ', '\t');
    let ghost ps = views(pieces@);
    let mut words: Vec<String> = Vec::new();
    let mut i: usize = 0;
    while i < pieces.len()
        invariant
            ps == views(pieces@),
            i <= pieces.len(),
            views(words@) == non_empty(ps.take(i as int)),
        decreases pieces.len() - i,
    {
        proof {
            assert(ps.take(i + 1).drop_last() =~= ps.take(i as int));
        }
        let ghost before = words@;
        if !pieces[i].as_str().is_empty() {
            words.push(pieces[i].clone());
            proof {
                assert(views(words@) =~= views(before).push(ps[i as int]));
            }
        } else {
            proof {
                assert(ps[i as int] =~= Seq::<char>::empty());
            }
        }
        i = i + 1;
    }
    proof {
        assert(ps.take(pieces.len() as int) =~= ps);
    }
    words
}

/// Whether `s` holds the character `c`.
pub fn has_char(s: &str, c: char) -> (found: bool)
    ensures
        found == s@.contains(c),
{
    let cs = chars_of(s);
    let mut i: usize = 0;
    while i < cs.len()
        invariant
            cs@ == s@,
            i <= cs.len(),
            forall|k: int| 0 <= k < i ==> cs@[k] != c,
        decreases cs.len() - i,
    {
        if cs[i] == c {
            return true;
        }
        i = i + 1;
    }
    false
}

/// Whether `p` occurs in `s` (`str::contains` with a string pattern).
pub fn contains_infix(s: &str, p: &str) -> (found: bool)
    ensures
        found == has_infix(s@, p@),
{
    let sc = chars_of(s);
    let pc = chars_of(p);
    if pc.len() > sc.len() {
        return false;
    }
    if pc.len() == 0 {
        proof {
            assert(s@.subrange(0int, 0int + p@.len()) =~= p@);
        }
        return true;
    }
    let last = sc.len() - pc.len();
    let mut i: usize = 0;
    while i <= last
        invariant
            sc@ == s@,
            pc@ == p@,
            0 < pc.len() <= sc.len(),
            last == sc.len() - pc.len(),
            i <= last + 1,
            forall|k: int| 0 <= k < i ==> #[trigger] s@.subrange(k, k + p@.len()) != p@,
        decreases last + 1 - i,
    {
        let mut j: usize = 0;
        let mut same = true;
        while j < pc.len()
            invariant
                sc@ == s@,
                pc@ == p@,
                i <= last,
                last == sc.len() - pc.len(),
                j <= pc.len(),
                same ==> forall|m: int| 0 <= m < j ==> sc@[i + m] == pc@[m],
                !same ==> s@.subrange(i as int, i + p@.len()) != p@,
            decreases pc.len() - j,
        {
            if sc[i + j] != pc[j] {
                proof {
                    assert(s@.subrange(i as int, i + p@.len())[j as int] != p@[j as int]);
                }
                same = false;
            }
            j = j + 1;
        }
        if same {
            proof {
                assert(s@.subrange(i as int, i + p@.len()) =~= p@);
            }
            return true;
        }
        i = i + 1;
    }
    proof {
        assert forall|k: int| 0 <= k && k + p@.len() <= s@.len() implies #[trigger] s@.subrange(
            k,
            k + p@.len(),
        ) != p@ by {
            assert(k < i);
        }
    }
    false
}

} // verus!

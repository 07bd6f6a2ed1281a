//! Splitting and joining of text by a separator character.
use vstd::prelude::*;

verus! {

/// The fields of `s` between occurrences of `sep`, as `str::split` yields them:
/// always at least one field, an empty one for an empty `s`.
pub open spec fn split_on(s: Seq<char>, sep: char) -> Seq<Seq<char>>
    decreases s.len(),
{
    if s.len() == 0 {
        seq![Seq::<char>::empty()]
    } else {
        let pre = split_on(s.drop_last(), sep);
        if s.last() == sep {
            pre.push(Seq::<char>::empty())
        } else {
            pre.update(pre.len() - 1, pre.last().push(s.last()))
        }
    }
}

/// `c` does not occur in `s`.
pub open spec fn lacks(s: Seq<char>, c: char) -> bool {
    forall|i: int| 0 <= i < s.len() ==> s[i] != c
}

pub proof fn lemma_split_len(s: Seq<char>, sep: char)
    ensures
        split_on(s, sep).len() >= 1,
    decreases s.len(),
{
    if s.len() > 0 {
        lemma_split_len(s.drop_last(), sep);
    }
}

/// Text without the separator is a single field.
pub proof fn lemma_split_single(s: Seq<char>, sep: char)
    requires
        lacks(s, sep),
    ensures
        split_on(s, sep) == seq![s],
    decreases s.len(),
{
    if s.len() == 0 {
        assert(s =~= Seq::<char>::empty());
    } else {
        lemma_split_single(s.drop_last(), sep);
        assert(s.last() != sep);
        assert(s.drop_last().push(s.last()) =~= s);
        assert(seq![s.drop_last()].update(0, s) =~= seq![s]);
    }
}

/// A separator between two texts splits them apart.
pub proof fn lemma_split_join(a: Seq<char>, sep: char, b: Seq<char>)
    ensures
        split_on(a + seq![sep] + b, sep) == split_on(a, sep) + split_on(b, sep),
    decreases b.len(),
{
    let s = a + seq![sep] + b;
    if b.len() == 0 {
        assert(s.drop_last() =~= a);
        assert(split_on(b, sep) == seq![Seq::<char>::empty()]);
        assert(split_on(a, sep).push(Seq::<char>::empty()) =~= split_on(a, sep) + split_on(b, sep));
    } else {
        let b2 = b.drop_last();
        assert(s.drop_last() =~= a + seq![sep] + b2);
        lemma_split_join(a, sep, b2);
        lemma_split_len(a, sep);
        lemma_split_len(b2, sep);
        let pa = split_on(a, sep);
        let pb = split_on(b2, sep);
        assert(s.last() == b.last());
        if b.last() == sep {
            assert((pa + pb).push(Seq::<char>::empty()) =~= pa + pb.push(Seq::<char>::empty()));
        } else {
            let pre = pa + pb;
            assert(pre.last() == pb.last());
            assert(pre.update(pre.len() - 1, pre.last().push(b.last())) =~= pa + pb.update(
                pb.len() - 1,
                pb.last().push(b.last()),
            ));
        }
    }
}

/// A line of a file that could not be read: its number, counted from 1, and
/// what was wrong with it.
#[derive(Debug)]
pub struct LineError<E> {
    pub line: usize,
    pub error: E,
}

/// `line` without one trailing carriage return.
pub open spec fn strip_cr(line: Seq<char>) -> Seq<char> {
    if line.len() > 0 && line.last() == '\r' {
        line.drop_last()
    } else {
        line
    }
}

/// The lines of `s`, as `str::lines` gives them: split at line feeds, one
/// trailing carriage return dropped from each, no line after a final line feed.
pub open spec fn lines_of(s: Seq<char>) -> Seq<Seq<char>> {
    let f = split_on(s, '\n');
    let kept = if f.last().len() == 0 {
        f.drop_last()
    } else {
        f
    };
    kept.map_values(|l: Seq<char>| strip_cr(l))
}

/// Splits `s` into lines, as `str::lines` does.
pub fn split_lines(s: &str) -> (r: Vec<String>)
    ensures
        r@.map_values(|l: String| l@) == lines_of(s@),
{
    let mut pieces = split_text(s, '\n');
    proof {
        lemma_split_len(s@, '\n');
    }
    let ghost f = split_on(s@, '\n');
    let last_len = pieces[pieces.len() - 1].as_str().unicode_len();
    proof {
        assert(pieces@[pieces@.len() - 1]@ == f.last());
    }
    if last_len == 0 {
        pieces.pop();
        proof {
            assert(pieces@.map_values(|l: String| l@) =~= f.drop_last());
        }
    }
    let ghost kept = pieces@.map_values(|l: String| l@);
    let mut lines: Vec<String> = Vec::new();
    let mut i: usize = 0;
    while i < pieces.len()
        invariant
            kept == pieces@.map_values(|l: String| l@),
            i <= pieces@.len(),
            lines@.map_values(|l: String| l@) == kept.take(i as int).map_values(
                |l: Seq<char>| strip_cr(l),
            ),
        decreases pieces@.len() - i,
    {
        let piece = pieces[i].as_str();
        let n = piece.unicode_len();
        let line = if n > 0 && piece.get_char(n - 1) == '\r' {
            String::from_str(piece.substring_char(0, n - 1))
        } else {
            String::from_str(piece)
        };
        proof {
            assert(kept[i as int] == piece@);
            if n > 0 && piece@.last() == '\r' {
                assert(piece@.subrange(0, n - 1) =~= piece@.drop_last());
            }
            assert(line@ == strip_cr(kept[i as int]));
            assert(kept.take(i as int + 1).map_values(|l: Seq<char>| strip_cr(l)) =~= kept.take(
                i as int,
            ).map_values(|l: Seq<char>| strip_cr(l)).push(line@));
            assert(lines@.push(line).map_values(|l: String| l@) =~= lines@.map_values(
                |l: String| l@,
            ).push(line@));
        }
        lines.push(line);
        i = i + 1;
    }
    proof {
        assert(kept.take(i as int) =~= kept);
    }
    lines
}

/// `a` comes no later than `b` in the order of `str`'s `Ord`: character by
/// character, a proper prefix first.
pub open spec fn text_le(a: Seq<char>, b: Seq<char>) -> bool
    decreases a.len(),
{
    if a.len() == 0 {
        true
    } else if b.len() == 0 {
        false
    } else if a[0] != b[0] {
        (a[0] as int) < (b[0] as int)
    } else {
        text_le(a.drop_first(), b.drop_first())
    }
}

/// Of two texts, one comes no later than the other.
pub proof fn lemma_text_le_total(a: Seq<char>, b: Seq<char>)
    ensures
        text_le(a, b) || text_le(b, a),
    decreases a.len(),
{
    if a.len() > 0 && b.len() > 0 {
        if a[0] == b[0] {
            lemma_text_le_total(a.drop_first(), b.drop_first());
        } else {
            assert((a[0] as int) != (b[0] as int));
        }
    }
}

proof fn lemma_text_le_skip(a: Seq<char>, b: Seq<char>, i: int)
    requires
        0 <= i <= a.len(),
        i <= b.len(),
        a.take(i) == b.take(i),
    ensures
        text_le(a, b) == text_le(a.skip(i), b.skip(i)),
    decreases i,
{
    if i > 0 {
        assert(a[0] == a.take(i)[0]);
        assert(b[0] == b.take(i)[0]);
        assert(a.drop_first().take(i - 1) =~= a.take(i).drop_first());
        assert(b.drop_first().take(i - 1) =~= b.take(i).drop_first());
        lemma_text_le_skip(a.drop_first(), b.drop_first(), i - 1);
        assert(a.drop_first().skip(i - 1) =~= a.skip(i));
        assert(b.drop_first().skip(i - 1) =~= b.skip(i));
    } else {
        assert(a.skip(0) =~= a);
        assert(b.skip(0) =~= b);
    }
}

/// Whether `a` comes no later than `b` in `str`'s order.
pub fn text_le_exec(a: &str, b: &str) -> (r: bool)
    ensures
        r == text_le(a@, b@),
{
    let n = a.unicode_len();
    let m = b.unicode_len();
    let mut i: usize = 0;
    while i < n && i < m && a.get_char(i) == b.get_char(i)
        invariant
            n == a@.len(),
            m == b@.len(),
            i <= n,
            i <= m,
            a@.take(i as int) == b@.take(i as int),
        decreases n - i,
    {
        proof {
            assert(a@.take(i as int + 1) =~= a@.take(i as int).push(a@[i as int]));
            assert(b@.take(i as int + 1) =~= b@.take(i as int).push(b@[i as int]));
        }
        i = i + 1;
    }
    proof {
        lemma_text_le_skip(a@, b@, i as int);
        let sa = a@.skip(i as int);
        let sb = b@.skip(i as int);
        if i < n && i < m {
            assert(sa[0] == a@[i as int]);
            assert(sb[0] == b@[i as int]);
        }
    }
    if i == n {
        true
    } else if i == m {
        false
    } else {
        (a.get_char(i) as u32) < (b.get_char(i) as u32)
    }
}

/// Inserts `x` after every text that comes no later than it.
pub open spec fn insert_text(sorted: Seq<Seq<char>>, x: Seq<char>) -> Seq<Seq<char>>
    decreases sorted.len(),
{
    if sorted.len() == 0 {
        seq![x]
    } else if text_le(sorted.last(), x) {
        sorted.push(x)
    } else {
        insert_text(sorted.drop_last(), x).push(sorted.last())
    }
}

/// The texts in `str`'s order; equal texts keep their order.
pub open spec fn sort_texts(texts: Seq<Seq<char>>) -> Seq<Seq<char>>
    decreases texts.len(),
{
    if texts.len() == 0 {
        Seq::empty()
    } else {
        insert_text(sort_texts(texts.drop_last()), texts.last())
    }
}

proof fn lemma_insert_text(sorted: Seq<Seq<char>>, x: Seq<char>, j: int)
    requires
        0 <= j <= sorted.len(),
        forall|i: int| j <= i < sorted.len() ==> !text_le(#[trigger] sorted[i], x),
        j == 0 || text_le(sorted[j - 1], x),
    ensures
        insert_text(sorted, x) == sorted.insert(j, x),
    decreases sorted.len(),
{
    if sorted.len() == 0 {
        assert(sorted.insert(j, x) =~= seq![x]);
    } else if j == sorted.len() {
        assert(sorted.insert(j, x) =~= sorted.push(x));
    } else {
        let s2 = sorted.drop_last();
        assert(!text_le(sorted[sorted.len() - 1], x));
        assert forall|i: int| j <= i < s2.len() implies !text_le(#[trigger] s2[i], x) by {
            assert(s2[i] == sorted[i]);
        }
        lemma_insert_text(s2, x, j);
        assert(s2.insert(j, x).push(sorted.last()) =~= sorted.insert(j, x));
    }
}

/// Orders texts as `str`'s `Ord` does.
pub fn sort_strings(texts: &Vec<String>) -> (r: Vec<String>)
    ensures
        r@.map_values(|t: String| t@) == sort_texts(texts@.map_values(|t: String| t@)),
{
    let ghost v = texts@.map_values(|t: String| t@);
    let mut sorted: Vec<String> = Vec::new();
    let mut i: usize = 0;
    proof {
        assert(v.take(0) =~= Seq::<Seq<char>>::empty());
    }
    while i < texts.len()
        invariant
            v == texts@.map_values(|t: String| t@),
            i <= texts@.len(),
            sorted@.map_values(|t: String| t@) == sort_texts(v.take(i as int)),
        decreases texts@.len() - i,
    {
        let x = texts[i].clone();
        let ghost sv = sorted@.map_values(|t: String| t@);
        let mut j: usize = sorted.len();
        while j > 0 && !text_le_exec(sorted[j - 1].as_str(), x.as_str())
            invariant
                sv == sorted@.map_values(|t: String| t@),
                j <= sorted@.len(),
                forall|m: int| j <= m < sorted@.len() ==> !text_le(#[trigger] sv[m], x@),
            decreases j,
        {
            j = j - 1;
        }
        proof {
            lemma_insert_text(sv, x@, j as int);
            assert(v.take(i as int + 1).drop_last() =~= v.take(i as int));
            assert(v[i as int] == x@);
        }
        let ghost before = sorted@;
        sorted.insert(j, x);
        proof {
            assert(sorted@ == before.insert(j as int, x));
            assert(sorted@.map_values(|t: String| t@) =~= sv.insert(j as int, x@));
        }
        i = i + 1;
    }
    proof {
        assert(v.take(i as int) =~= v);
    }
    sorted
}

/// The pieces of a split hold no separator, and no character that the whole
/// text lacks.
pub proof fn lemma_split_pieces(s: Seq<char>, sep: char, c: char)
    ensures
        forall|i: int| 0 <= i < split_on(s, sep).len() ==> lacks(#[trigger] split_on(s, sep)[i], sep),
        lacks(s, c) ==> forall|i: int|
            0 <= i < split_on(s, sep).len() ==> lacks(#[trigger] split_on(s, sep)[i], c),
    decreases s.len(),
{
    if s.len() > 0 {
        let t = s.drop_last();
        lemma_split_pieces(t, sep, c);
        lemma_split_len(t, sep);
        let pre = split_on(t, sep);
        if lacks(s, c) {
            assert(lacks(t, c)) by {
                assert forall|i: int| 0 <= i < t.len() implies t[i] != c by {
                    assert(t[i] == s[i]);
                }
            }
        }
        if s.last() != sep {
            let last = pre.last().push(s.last());
            assert forall|i: int| 0 <= i < last.len() implies last[i] != sep by {
                if i < pre.last().len() {
                    assert(lacks(pre[pre.len() - 1], sep));
                }
            }
            if lacks(s, c) {
                assert(s[s.len() - 1] != c);
                assert forall|i: int| 0 <= i < last.len() implies last[i] != c by {
                    if i < pre.last().len() {
                        assert(lacks(pre[pre.len() - 1], c));
                    }
                }
            }
        }
    }
}

/// Whether `s` holds no `c`.
pub fn lacks_char(s: &str, c: char) -> (r: bool)
    ensures
        r == lacks(s@, c),
{
    let n = s.unicode_len();
    let mut i: usize = 0;
    while i < n
        invariant
            n == s@.len(),
            i <= n,
            forall|m: int| 0 <= m < i ==> s@[m] != c,
        decreases n - i,
    {
        if s.get_char(i) == c {
            return false;
        }
        i = i + 1;
    }
    true
}

/// Splits `s` at every `sep`, as `str::split` does.
pub fn split_text(s: &str, sep: char) -> (r: Vec<String>)
    ensures
        r@.map_values(|f: String| f@) == split_on(s@, sep),
{
    let n = s.unicode_len();
    let mut fields: Vec<String> = Vec::new();
    let mut start: usize = 0;
    let mut i: usize = 0;
    proof {
        assert(s@.take(0) =~= Seq::<char>::empty());
        assert(fields@.map_values(|f: String| f@).push(s@.subrange(0, 0)) =~= seq![Seq::<char>::empty()]);
    }
    while i < n
        invariant
            n == s@.len(),
            start <= i <= n,
            fields@.map_values(|f: String| f@).push(s@.subrange(start as int, i as int))
                == split_on(s@.take(i as int), sep),
        decreases n - i,
    {
        let c = s.get_char(i);
        let ghost before = fields@.map_values(|f: String| f@);
        let ghost pre = before.push(s@.subrange(start as int, i as int));
        proof {
            let t = s@.take(i as int + 1);
            assert(t.drop_last() =~= s@.take(i as int));
            assert(t.last() == c);
        }
        if c == sep {
            let f = String::from_str(s.substring_char(start, i));
            proof {
                assert(f@ == s@.subrange(start as int, i as int));
                assert(s@.subrange(i as int + 1, i as int + 1) =~= Seq::<char>::empty());
                assert(fields@.push(f).map_values(|f: String| f@) =~= before.push(f@));
                assert(pre.push(Seq::<char>::empty()) =~= fields@.push(f).map_values(|f: String| f@).push(
                    s@.subrange(i as int + 1, i as int + 1),
                ));
            }
            fields.push(f);
            start = i + 1;
        } else {
            proof {
                assert(s@.subrange(start as int, i as int + 1) =~= s@.subrange(start as int, i as int).push(c));
                assert(pre.update(pre.len() - 1, pre.last().push(c)) =~= before.push(
                    s@.subrange(start as int, i as int + 1),
                ));
            }
        }
        i = i + 1;
    }
    let last = String::from_str(s.substring_char(start, n));
    proof {
        assert(s@.take(n as int) =~= s@);
        assert(fields@.push(last).map_values(|f: String| f@) =~= fields@.map_values(|f: String| f@).push(last@));
    }
    fields.push(last);
    fields
}

} // verus!

//! Character-level helpers: splitting, searching and number rendering.
use vstd::prelude::*;

verus! {

/// The pieces of `s` between occurrences of `sep`, as `str::split` yields
/// them: always at least one piece, empty pieces kept.
pub open spec fn split_on(s: Seq<char>, sep: char) -> Seq<Seq<char>>
    decreases s.len(),
{
    if s.len() == 0 {
        seq![Seq::empty()]
    } else {
        let prev = split_on(s.drop_last(), sep);
        if s.last() == sep {
            prev.push(Seq::empty())
        } else {
            prev.update(prev.len() - 1, prev.last().push(s.last()))
        }
    }
}

pub proof fn lemma_split_nonempty(s: Seq<char>, sep: char)
    ensures
        split_on(s, sep).len() >= 1,
    decreases s.len(),
{
    if s.len() > 0 {
        lemma_split_nonempty(s.drop_last(), sep);
    }
}

/// `pat` occurs in `hay` as a contiguous run.
pub open spec fn contains(hay: Seq<char>, pat: Seq<char>) -> bool {
    exists|i: int|
        0 <= i && i + pat.len() <= hay.len() && #[trigger] hay.subrange(i, i + pat.len()) == pat
}

/// The last piece of a split is a suffix of the text.
pub proof fn lemma_split_last_suffix(s: Seq<char>, sep: char)
    ensures
        split_on(s, sep).last().len() <= s.len(),
        split_on(s, sep).last() == s.skip(s.len() - split_on(s, sep).last().len()),
    decreases s.len(),
{
    lemma_split_nonempty(s, sep);
    if s.len() == 0 {
        assert(s.skip(0) =~= s);
    } else {
        let p = s.drop_last();
        lemma_split_last_suffix(p, sep);
        lemma_split_nonempty(p, sep);
        if s.last() == sep {
            assert(s.skip(s.len() as int) =~= Seq::<char>::empty());
        } else {
            let l = split_on(p, sep).last();
            assert(l.push(s.last()) =~= s.skip(s.len() - l.len() - 1));
        }
    }
}

/// What occurs in a piece of a split occurs in the text.
pub proof fn lemma_split_contains(s: Seq<char>, sep: char, pat: Seq<char>, k: int)
    requires
        0 <= k < split_on(s, sep).len(),
        contains(split_on(s, sep)[k], pat),
    ensures
        contains(s, pat),
    decreases s.len(),
{
    lemma_split_nonempty(s, sep);
    let w = split_on(s, sep)[k];
    let i = choose|i: int|
        0 <= i && i + pat.len() <= w.len() && #[trigger] w.subrange(i, i + pat.len()) == pat;
    if s.len() == 0 {
        assert(s.subrange(0, 0) =~= pat);
    } else {
        let p = s.drop_last();
        lemma_split_nonempty(p, sep);
        let pp = split_on(p, sep);
        if k < pp.len() - 1 || (s.last() == sep && k < pp.len()) {
            assert(w == pp[k]);
            lemma_split_contains(p, sep, pat, k);
            let j = choose|j: int|
                0 <= j && j + pat.len() <= p.len() && #[trigger] p.subrange(j, j + pat.len())
                    == pat;
            assert(s.subrange(j, j + pat.len()) =~= p.subrange(j, j + pat.len()));
        } else if s.last() == sep {
            assert(s.subrange(0, 0) =~= pat);
        } else {
            let l = pp.last();
            assert(w == l.push(s.last()));
            if i + pat.len() <= l.len() {
                assert(l.subrange(i, i + pat.len()) =~= pat);
                lemma_split_contains(p, sep, pat, k);
                let j = choose|j: int|
                    0 <= j && j + pat.len() <= p.len() && #[trigger] p.subrange(j, j + pat.len())
                        == pat;
                assert(s.subrange(j, j + pat.len()) =~= p.subrange(j, j + pat.len()));
            } else {
                lemma_split_last_suffix(p, sep);
                let a = p.len() - l.len();
                assert(w =~= s.skip(a));
                assert(s.subrange(a + i, a + i + pat.len()) =~= pat);
            }
        }
    }
}

/// The lines with `sep` between each two, as `[..].join` builds them.
pub open spec fn join_on(lines: Seq<Seq<char>>, sep: char) -> Seq<char>
    decreases lines.len(),
{
    if lines.len() == 0 {
        Seq::empty()
    } else if lines.len() == 1 {
        lines[0]
    } else {
        join_on(lines.drop_last(), sep) + seq![sep] + lines.last()
    }
}

/// No line holds `sep`.
pub open spec fn lines_free_of(lines: Seq<Seq<char>>, sep: char) -> bool {
    forall|i: int, j: int| 0 <= i < lines.len() && 0 <= j < lines[i].len() ==> #[trigger] lines[i][j] != sep
}

proof fn lemma_split_extend(t: Seq<char>, w: Seq<char>, sep: char)
    requires
        forall|j: int| 0 <= j < w.len() ==> #[trigger] w[j] != sep,
    ensures
        split_on(t, sep).len() >= 1,
        split_on(t + w, sep) == split_on(t, sep).update(
            split_on(t, sep).len() - 1,
            split_on(t, sep).last() + w,
        ),
    decreases w.len(),
{
    lemma_split_nonempty(t, sep);
    let st = split_on(t, sep);
    if w.len() == 0 {
        assert(t + w =~= t);
        assert(st.last() + w =~= st.last());
        assert(st.update(st.len() - 1, st.last() + w) =~= st);
    } else {
        let w1 = w.drop_last();
        lemma_split_extend(t, w1, sep);
        assert((t + w).drop_last() =~= t + w1);
        assert((t + w).last() == w.last());
        assert(w[w.len() - 1] != sep);
        assert((st.last() + w1).push(w.last()) =~= st.last() + w);
        assert(st.update(st.len() - 1, st.last() + w1).update(st.len() - 1, st.last() + w)
            =~= st.update(st.len() - 1, st.last() + w));
    }
}

/// Splitting joined lines that do not hold the separator gives the lines back.
pub proof fn lemma_split_join(lines: Seq<Seq<char>>, sep: char)
    requires
        lines.len() >= 1,
        lines_free_of(lines, sep),
    ensures
        split_on(join_on(lines, sep), sep) == lines,
    decreases lines.len(),
{
    if lines.len() == 1 {
        let l = lines[0];
        assert(forall|j: int| 0 <= j < l.len() ==> #[trigger] l[j] != sep) by {
            assert forall|j: int| 0 <= j < l.len() implies #[trigger] l[j] != sep by {
                assert(lines[0][j] != sep);
            }
        }
        lemma_split_extend(Seq::empty(), l, sep);
        assert(Seq::<char>::empty() + l =~= l);
        assert(seq![Seq::<char>::empty()].update(0, Seq::<char>::empty() + l) =~= lines);
    } else {
        let p = lines.drop_last();
        let l = lines.last();
        assert(lines_free_of(p, sep)) by {
            assert forall|i: int, j: int| 0 <= i < p.len() && 0 <= j < p[i].len() implies #[trigger] p[i][j]
                != sep by {
                assert(p[i] == lines[i]);
            }
        }
        lemma_split_join(p, sep);
        let t = join_on(p, sep).push(sep);
        assert(t.drop_last() =~= join_on(p, sep));
        assert(split_on(t, sep) == p.push(Seq::empty()));
        assert(forall|j: int| 0 <= j < l.len() ==> #[trigger] l[j] != sep) by {
            assert forall|j: int| 0 <= j < l.len() implies #[trigger] l[j] != sep by {
                assert(lines[lines.len() - 1][j] != sep);
            }
        }
        lemma_split_extend(t, l, sep);
        assert(t + l =~= join_on(lines, sep));
        assert(Seq::<char>::empty() + l =~= l);
        assert(p.push(Seq::empty()).update(p.len() as int, Seq::<char>::empty() + l) =~= lines);
    }
}

/// The characters of `s` in order.
pub(crate) fn chars_of(s: &str) -> (r: Vec<char>)
    ensures
        r@ == s@,
{
    broadcast use vstd::string::group_string_axioms;

    let mut r: Vec<char> = Vec::new();
    for c in it: s.chars()
        invariant
            it.seq() == s@,
            r@ == it.seq().take(it.index() as int),
    {
        r.push(c);
        assert(r@ =~= it.seq().take(it.index() + 1));
    }
    assert(r@ =~= s@);
    r
}

/// Relies on `String`'s `FromIterator<&char>`: the string of `v`'s characters.
#[verifier::external_body]
pub(crate) fn string_of(v: &Vec<char>) -> (r: String)
    ensures
        r@ == v@,
{
    v.iter().collect()
}

/// A character of Unicode's White_Space property, as `char::is_whitespace`
/// defines it.
pub open spec fn is_white_space(c: char) -> bool {
    let u = c as u32;
    (0x9 <= u && u <= 0xD) || u == 0x20 || u == 0x85 || u == 0xA0 || u == 0x1680 || (0x2000 <= u
        && u <= 0x200A) || u == 0x2028 || u == 0x2029 || u == 0x202F || u == 0x205F || u == 0x3000
}

/// `s` without its leading white space.
pub open spec fn trim_start(s: Seq<char>) -> Seq<char>
    decreases s.len(),
{
    if s.len() > 0 && is_white_space(s[0]) {
        trim_start(s.drop_first())
    } else {
        s
    }
}

/// `s` without its trailing white space.
pub open spec fn trim_end(s: Seq<char>) -> Seq<char>
    decreases s.len(),
{
    if s.len() > 0 && is_white_space(s.last()) {
        trim_end(s.drop_last())
    } else {
        s
    }
}

/// `s` without leading and trailing white space.
pub open spec fn trimmed(s: Seq<char>) -> Seq<char> {
    trim_end(trim_start(s))
}

/// Relies on `str::trim`: leading and trailing characters of the White_Space
/// property removed.
#[verifier::external_body]
pub(crate) fn trim_text(s: &str) -> (r: String)
    ensures
        r@ == trimmed(s@),
{
    s.trim().to_string()
}

/// Splits `s` at every `sep`, as `split_on` states.
pub fn split_chars(s: &Vec<char>, sep: char) -> (r: Vec<Vec<char>>)
    ensures
        r@.len() == split_on(s@, sep).len(),
        forall|k: int| 0 <= k < r@.len() ==> #[trigger] r@[k]@ == split_on(s@, sep)[k],
{
    let mut r: Vec<Vec<char>> = Vec::new();
    let mut cur: Vec<char> = Vec::new();
    let mut i: usize = 0;
    proof {
        assert(s@.take(0) =~= Seq::<char>::empty());
    }
    while i < s.len()
        invariant
            i <= s@.len(),
            r@.len() + 1 == split_on(s@.take(i as int), sep).len(),
            forall|k: int|
                0 <= k < r@.len() ==> #[trigger] r@[k]@ == split_on(s@.take(i as int), sep)[k],
            cur@ == split_on(s@.take(i as int), sep).last(),
        decreases s@.len() - i,
    {
        proof {
            lemma_split_nonempty(s@.take(i as int), sep);
            assert(s@.take(i + 1).drop_last() =~= s@.take(i as int));
        }
        if s[i] == sep {
            r.push(cur);
            cur = Vec::new();
        } else {
            cur.push(s[i]);
        }
        i += 1;
    }
    proof {
        assert(s@.take(s@.len() as int) =~= s@);
        lemma_split_nonempty(s@, sep);
    }
    r.push(cur);
    r
}

/// Whether `pat` occurs in `hay`.
pub fn contains_chars(hay: &Vec<char>, pat: &Vec<char>) -> (r: bool)
    ensures
        r == contains(hay@, pat@),
{
    if pat.len() > hay.len() {
        return false;
    }
    let mut i: usize = 0;
    while i <= hay.len() - pat.len()
        invariant
            pat.len() <= hay.len(),
            forall|k: int|
                0 <= k < i ==> #[trigger] hay@.subrange(k, k + pat@.len()) != pat@,
        decreases hay.len() - i,
    {
        let mut j: usize = 0;
        let mut same = true;
        while j < pat.len() && same
            invariant
                j <= pat.len(),
                i + pat.len() <= hay.len(),
                same ==> forall|t: int| 0 <= t < j ==> hay@[i + t] == pat@[t],
                !same ==> j < pat.len() && hay@[i + j] != pat@[j as int],
            decreases pat.len() - j + (if same { 1int } else { 0int }),
        {
            if hay[i + j] != pat[j] {
                same = false;
            } else {
                j += 1;
            }
        }
        if same {
            assert(hay@.subrange(i as int, i + pat@.len()) =~= pat@);
            return true;
        }
        proof {
            assert(hay@.subrange(i as int, i + pat@.len())[j as int] == hay@[i + j]);
        }
        i += 1;
    }
    false
}

} // verus!

//! Character-level helpers on strings: splitting, prefix tests and
//! character replacement, each stated over the string's `Seq<char>` view.
use vstd::prelude::*;
use vstd::string::*;

verus! {

broadcast use vstd::string::group_string_axioms;

/// The characters of `s`, in order.
pub fn chars_of(s: &str) -> (out: Vec<char>)
    ensures
        out@ == s@,
{
    let mut out: Vec<char> = Vec::new();
    for c in it: s.chars()
        invariant
            out@ == it.seq().take(it.index() as int),
            it.seq() == s@,
    {
        out.push(c);
    }
    out
}

/// The pieces of `s` between occurrences of `sep`, as `str::split` with a
/// `char` pattern yields them: there is always at least one piece, and two
/// adjacent separators give an empty piece.
pub open spec fn split_spec(s: Seq<char>, sep: char) -> Seq<Seq<char>>
    decreases s.len(),
{
    if s.len() == 0 {
        seq![Seq::<char>::empty()]
    } else {
        let rest = split_spec(s.drop_last(), sep);
        if s.last() == sep {
            rest.push(Seq::<char>::empty())
        } else {
            rest.update(rest.len() - 1, rest.last().push(s.last()))
        }
    }
}

pub proof fn lemma_split_spec_nonempty(s: Seq<char>, sep: char)
    ensures
        split_spec(s, sep).len() >= 1,
    decreases s.len(),
{
    if s.len() > 0 {
        lemma_split_spec_nonempty(s.drop_last(), sep);
    }
}

/// Every piece of a split is free of the separator, and holds only
/// characters of the split string.
pub proof fn lemma_split_pieces(s: Seq<char>, sep: char)
    ensures
        forall|i: int|
            0 <= i < split_spec(s, sep).len() ==> !(#[trigger] split_spec(s, sep)[i]).contains(sep),
        forall|i: int, c: char|
            0 <= i < split_spec(s, sep).len() && #[trigger] split_spec(s, sep)[i].contains(c)
                ==> s.contains(c),
    decreases s.len(),
{
    lemma_split_spec_nonempty(s, sep);
    if s.len() > 0 {
        let t = s.drop_last();
        lemma_split_pieces(t, sep);
        lemma_split_spec_nonempty(t, sep);
        let rest = split_spec(t, sep);
        assert forall|i: int| 0 <= i < split_spec(s, sep).len() implies !(#[trigger] split_spec(
            s,
            sep,
        )[i]).contains(sep) by {
            if s.last() != sep && i == rest.len() - 1 {
                let piece = rest.last().push(s.last());
                if piece.contains(sep) {
                    let k = choose|k: int| 0 <= k < piece.len() && piece[k] == sep;
                    assert(rest.last()[k] == sep);
                }
            }
        }
        assert forall|i: int, c: char|
            0 <= i < split_spec(s, sep).len() && #[trigger] split_spec(s, sep)[i].contains(c)
                implies s.contains(c) by {
            let piece = split_spec(s, sep)[i];
            let k = choose|k: int| 0 <= k < piece.len() && piece[k] == c;
            if s.last() == sep {
                if i < rest.len() {
                    assert(rest[i].contains(c));
                    let m = choose|m: int| 0 <= m < t.len() && t[m] == c;
                    assert(s[m] == c);
                }
            } else if i == rest.len() - 1 && k == piece.len() - 1 {
                assert(s[s.len() - 1] == c);
            } else {
                if i == rest.len() - 1 {
                    assert(rest.last()[k] == c);
                } else {
                    assert(rest[i][k] == c);
                }
                assert(rest[i].contains(c));
                let m = choose|m: int| 0 <= m < t.len() && t[m] == c;
                assert(s[m] == c);
            }
        }
    }
}

/// Whether `s` holds the character `c`.
pub fn contains_char(s: &str, c: char) -> (b: bool)
    ensures
        b == s@.contains(c),
{
    let chars = chars_of(s);
    let mut i: usize = 0;
    while i < chars.len()
        invariant
            chars@ == s@,
            i <= chars@.len(),
            forall|j: int| 0 <= j < i ==> chars@[j] != c,
        decreases chars@.len() - i,
    {
        if chars[i] == c {
            return true;
        }
        i = i + 1;
    }
    false
}

/// Whether `s` is exactly the one character `c`.
pub fn is_single_char(s: &String, c: char) -> (b: bool)
    ensures
        b == (s@ == seq![c]),
{
    let chars = chars_of(s.as_str());
    if chars.len() == 1 && chars[0] == c {
        assert(chars@ =~= seq![c]);
        true
    } else {
        false
    }
}

/// A copy of the characters `from..to` of `s`.
pub fn substring(s: &str, from: usize, to: usize) -> (out: String)
    requires
        from <= to <= s@.len(),
    ensures
        out@ == s@.subrange(from as int, to as int),
{
    s.substring_char(from, to).to_owned()
}

/// Splits `s` at every occurrence of `sep`.
pub fn split_char(s: &str, sep: char) -> (out: Vec<String>)
    ensures
        out@.map_values(|p: String| p@) == split_spec(s@, sep),
{
    let chars = chars_of(s);
    let n = chars.len();
    let mut out: Vec<String> = Vec::new();
    let mut start: usize = 0;
    let mut i: usize = 0;
    assert(s@.take(0) == Seq::<char>::empty());
    assert(out@.map_values(|p: String| p@).push(s@.subrange(0, 0)) == seq![Seq::<char>::empty()]);
    while i < n
        invariant
            chars@ == s@,
            n == s@.len(),
            start <= i <= n,
            split_spec(s@.take(i as int), sep) == out@.map_values(|p: String| p@).push(
                s@.subrange(start as int, i as int),
            ),
        decreases n - i,
    {
        let ghost before = out@.map_values(|p: String| p@);
        assert(s@.take(i + 1).drop_last() == s@.take(i as int));
        assert(s@.take(i + 1).last() == s@[i as int]);
        let ghost prev = split_spec(s@.take(i as int), sep);
        assert(split_spec(s@.take(i + 1), sep) == if s@[i as int] == sep {
            prev.push(Seq::<char>::empty())
        } else {
            prev.update(prev.len() - 1, prev.last().push(s@[i as int]))
        });
        if chars[i] == sep {
            let piece = substring(s, start, i);
            out.push(piece);
            assert(out@.map_values(|p: String| p@) == before.push(s@.subrange(start as int, i as int)));
            start = i + 1;
            assert(s@.subrange(start as int, i + 1) == Seq::<char>::empty());
        } else {
            assert(s@.subrange(start as int, i + 1) == s@.subrange(start as int, i as int).push(s@[i as int]));
        }
        i = i + 1;
    }
    let last = substring(s, start, n);
    let ghost before = out@.map_values(|p: String| p@);
    out.push(last);
    assert(out@.map_values(|p: String| p@) == before.push(s@.subrange(start as int, n as int)));
    assert(s@.take(n as int) == s@);
    out
}


/// The position of the first `c` in `s`, or -1.
pub open spec fn first_index(s: Seq<char>, c: char) -> int
    decreases s.len(),
{
    if s.len() == 0 {
        -1
    } else if s[0] == c {
        0
    } else {
        let k = first_index(s.drop_first(), c);
        if k < 0 {
            -1
        } else {
            k + 1
        }
    }
}

pub proof fn lemma_first_index(s: Seq<char>, c: char)
    ensures
        -1 <= first_index(s, c) < s.len(),
        first_index(s, c) >= 0 ==> s[first_index(s, c)] == c,
        first_index(s, c) < 0 ==> !s.contains(c),
        forall|i: int| 0 <= i < s.len() && (first_index(s, c) < 0 || i < first_index(s, c))
            ==> #[trigger] s[i] != c,
    decreases s.len(),
{
    if s.len() > 0 {
        lemma_first_index(s.drop_first(), c);
        assert forall|i: int| 0 <= i < s.len() && (first_index(s, c) < 0 || i < first_index(s, c))
            implies #[trigger] s[i] != c by {
            if i > 0 {
                assert(s[i] == s.drop_first()[i - 1]);
            }
        }
        if first_index(s, c) < 0 && s.contains(c) {
            let i = choose|i: int| 0 <= i < s.len() && s[i] == c;
            assert(s[i] != c);
        }
    }
}

/// The first position from `start` on where `chars` holds `c`, or `None`.
pub fn find_from(chars: &Vec<char>, start: usize, c: char) -> (r: Option<usize>)
    requires
        start <= chars@.len(),
    ensures
        match r {
            Some(k) => start <= k < chars@.len() && k - start == first_index(
                chars@.skip(start as int),
                c,
            ),
            None => first_index(chars@.skip(start as int), c) == -1,
        },
{
    let ghost t = chars@.skip(start as int);
    proof {
        lemma_first_index(t, c);
    }
    let mut i = start;
    while i < chars.len()
        invariant
            start <= i <= chars@.len(),
            t == chars@.skip(start as int),
            forall|j: int| start <= j < i ==> chars@[j] != c,
        decreases chars@.len() - i,
    {
        if chars[i] == c {
            proof {
                lemma_first_index(t, c);
                assert(t[i - start] == c);
                if first_index(t, c) < 0 || first_index(t, c) > i - start {
                    assert(t[i - start] != c);
                }
                if first_index(t, c) < i - start {
                    let k = first_index(t, c);
                    assert(t[k] == chars@[start + k]);
                }
            }
            return Some(i);
        }
        i = i + 1;
    }
    proof {
        lemma_first_index(t, c);
        if first_index(t, c) >= 0 {
            let k = first_index(t, c);
            assert(t[k] == chars@[start + k]);
        }
    }
    None
}

/// The pieces `str::splitn(n, c)` yields: split at the first `n - 1`
/// occurrences of `c`, the rest kept whole in the last piece.
pub open spec fn splitn_spec(s: Seq<char>, n: int, c: char) -> Seq<Seq<char>>
    decreases n,
{
    if n <= 1 {
        seq![s]
    } else {
        let k = first_index(s, c);
        if k < 0 {
            seq![s]
        } else {
            seq![s.take(k)] + splitn_spec(s.skip(k + 1), n - 1, c)
        }
    }
}

pub proof fn lemma_splitn_nonempty(s: Seq<char>, n: int, c: char)
    ensures
        splitn_spec(s, n, c).len() >= 1,
    decreases n,
{
    if n > 1 && first_index(s, c) >= 0 {
        lemma_splitn_nonempty(s.skip(first_index(s, c) + 1), n - 1, c);
    }
}

/// Splits `s` at the first `n - 1` occurrences of `sep`.
pub fn splitn_char(s: &str, n: usize, sep: char) -> (out: Vec<String>)
    requires
        n >= 1,
    ensures
        out@.map_values(|p: String| p@) == splitn_spec(s@, n as int, sep),
{
    let chars = chars_of(s);
    let mut out: Vec<String> = Vec::new();
    let mut start: usize = 0;
    assert(s@.skip(0) =~= s@);
    assert(out@.map_values(|p: String| p@) + splitn_spec(s@.skip(0), n as int, sep) =~= splitn_spec(s@, n as int, sep));
    loop
        invariant
            chars@ == s@,
            start <= s@.len(),
            out@.len() < n,
            out@.map_values(|p: String| p@) + splitn_spec(s@.skip(start as int), n - out@.len(), sep)
                == splitn_spec(s@, n as int, sep),
        decreases s@.len() - start,
    {
        let ghost before = out@.map_values(|p: String| p@);
        let ghost rest = s@.skip(start as int);
        if out.len() + 1 >= n {
            let piece = substring(s, start, chars.len());
            out.push(piece);
            assert(out@.map_values(|p: String| p@) =~= before + splitn_spec(rest, n - before.len(), sep));
            return out;
        }
        let len = chars.len();
        match find_from(&chars, start, sep) {
            Some(k) => {
                assert(k < len);
                let piece = substring(s, start, k);
                out.push(piece);
                proof {
                    let m = n - before.len();
                    assert(rest.take(k - start) =~= s@.subrange(start as int, k as int));
                    assert(rest.skip(k - start + 1) =~= s@.skip(k + 1));
                    assert(splitn_spec(rest, m, sep) == seq![rest.take(k - start)] + splitn_spec(rest.skip(k - start + 1), m - 1, sep));
                    assert(out@.map_values(|p: String| p@) =~= before.push(s@.subrange(start as int, k as int)));
                    assert(out@.map_values(|p: String| p@) + splitn_spec(s@.skip(k + 1), n - out@.len(), sep)
                        =~= before + splitn_spec(rest, m, sep));
                }
                start = k + 1;
            },
            None => {
                let piece = substring(s, start, chars.len());
                out.push(piece);
                assert(rest =~= s@.subrange(start as int, s@.len() as int));
                assert(out@.map_values(|p: String| p@) =~= before + splitn_spec(rest, n - before.len(), sep));
                return out;
            },
        }
    }
}

/// The characters `char::is_whitespace` accepts: those with the Unicode
/// `White_Space` property.
pub open spec fn is_ws(c: char) -> bool {
    ||| ('\u{9}' <= c && c <= '\u{d}')
    ||| c == ' '
    ||| c == '\u{85}'
    ||| c == '\u{a0}'
    ||| c == '\u{1680}'
    ||| ('\u{2000}' <= c && c <= '\u{200a}')
    ||| c == '\u{2028}'
    ||| c == '\u{2029}'
    ||| c == '\u{202f}'
    ||| c == '\u{205f}'
    ||| c == '\u{3000}'
}

/// `char::is_whitespace`, written out over its documented character set.
pub fn is_whitespace_char(c: char) -> (b: bool)
    ensures
        b == is_ws(c),
{
    ('\u{9}' <= c && c <= '\u{d}') || c == ' ' || c == '\u{85}' || c == '\u{a0}' || c == '\u{1680}'
        || ('\u{2000}' <= c && c <= '\u{200a}') || c == '\u{2028}' || c == '\u{2029}' || c
        == '\u{202f}' || c == '\u{205f}' || c == '\u{3000}'
}

/// The whitespace-separated words of `s` so far, and the word being read.
pub open spec fn ws_fold(s: Seq<char>) -> (Seq<Seq<char>>, Seq<char>)
    decreases s.len(),
{
    if s.len() == 0 {
        (Seq::<Seq<char>>::empty(), Seq::<char>::empty())
    } else {
        let (toks, cur) = ws_fold(s.drop_last());
        if is_ws(s.last()) {
            if cur.len() > 0 {
                (toks.push(cur), Seq::<char>::empty())
            } else {
                (toks, Seq::<char>::empty())
            }
        } else {
            (toks, cur.push(s.last()))
        }
    }
}

/// The words `str::split_whitespace` yields: maximal runs of non-whitespace
/// characters.
pub open spec fn ws_words(s: Seq<char>) -> Seq<Seq<char>> {
    let (toks, cur) = ws_fold(s);
    if cur.len() > 0 {
        toks.push(cur)
    } else {
        toks
    }
}

/// Splits `s` into its whitespace-separated words.
pub fn split_whitespace(s: &str) -> (out: Vec<String>)
    ensures
        out@.map_values(|p: String| p@) == ws_words(s@),
{
    let chars = chars_of(s);
    let n = chars.len();
    let mut out: Vec<String> = Vec::new();
    let mut start: usize = 0;
    let mut i: usize = 0;
    assert(s@.take(0) =~= Seq::<char>::empty());
    assert(out@.map_values(|p: String| p@) =~= Seq::<Seq<char>>::empty());
    while i < n
        invariant
            chars@ == s@,
            n == s@.len(),
            start <= i <= n,
            ws_fold(s@.take(i as int)) == (out@.map_values(|p: String| p@), s@.subrange(start as int, i as int)),
        decreases n - i,
    {
        let ghost before = out@.map_values(|p: String| p@);
        assert(s@.take(i + 1).drop_last() == s@.take(i as int));
        assert(s@.take(i + 1).last() == s@[i as int]);
        if is_whitespace_char(chars[i]) {
            if start < i {
                let piece = substring(s, start, i);
                out.push(piece);
                assert(out@.map_values(|p: String| p@) =~= before.push(s@.subrange(start as int, i as int)));
            }
            start = i + 1;
            assert(s@.subrange(start as int, i + 1) =~= Seq::<char>::empty());
        } else {
            assert(s@.subrange(start as int, i + 1) == s@.subrange(start as int, i as int).push(s@[i as int]));
        }
        i = i + 1;
    }
    assert(s@.take(n as int) == s@);
    if start < n {
        let ghost before = out@.map_values(|p: String| p@);
        let piece = substring(s, start, n);
        out.push(piece);
        assert(out@.map_values(|p: String| p@) =~= before.push(s@.subrange(start as int, n as int)));
    }
    out
}

/// Whether `s` reads exactly `lit`.
pub fn string_is(s: &String, lit: &str) -> (b: bool)
    ensures
        b == (s@ == lit@),
{
    let l = lit.to_owned();
    *s == l
}


/// The first `c` in `a + [c] + b`, where `a` holds none, is right after `a`.
pub proof fn lemma_first_index_after(a: Seq<char>, b: Seq<char>, c: char)
    requires
        !a.contains(c),
    ensures
        first_index(a + seq![c] + b, c) == a.len(),
    decreases a.len(),
{
    let s = a + seq![c] + b;
    if a.len() == 0 {
        assert(s[0] == c);
    } else {
        assert(s[0] == a[0]);
        assert(a[0] != c);
        assert(s.drop_first() =~= a.drop_first() + seq![c] + b);
        assert(!a.drop_first().contains(c)) by {
            if a.drop_first().contains(c) {
                let k = choose|k: int| 0 <= k < a.drop_first().len() && a.drop_first()[k] == c;
                assert(a[k + 1] == c);
            }
        }
        lemma_first_index_after(a.drop_first(), b, c);
    }
}

/// Splitting at most `n` ways a text free of the separator gives it whole.
pub proof fn lemma_splitn_plain(a: Seq<char>, n: int, c: char)
    requires
        !a.contains(c),
    ensures
        splitn_spec(a, n, c) == seq![a],
{
    lemma_first_index(a, c);
}

/// A leading piece free of the separator splits off first.
pub proof fn lemma_splitn_cons(a: Seq<char>, b: Seq<char>, n: int, c: char)
    requires
        !a.contains(c),
        n >= 2,
    ensures
        splitn_spec(a + seq![c] + b, n, c) == seq![a] + splitn_spec(b, n - 1, c),
{
    let s = a + seq![c] + b;
    lemma_first_index_after(a, b, c);
    assert(s.take(a.len() as int) =~= a);
    assert(s.skip(a.len() as int + 1) =~= b);
}

pub open spec fn no_ws(a: Seq<char>) -> bool {
    forall|i: int| 0 <= i < a.len() ==> !is_ws(#[trigger] a[i])
}

/// A text without whitespace is one word being read.
pub proof fn lemma_ws_fold_plain(a: Seq<char>)
    requires
        no_ws(a),
    ensures
        ws_fold(a) == (Seq::<Seq<char>>::empty(), a),
    decreases a.len(),
{
    if a.len() > 0 {
        assert(no_ws(a.drop_last())) by {
            assert forall|i: int| 0 <= i < a.drop_last().len() implies !is_ws(#[trigger] a.drop_last()[i]) by {
                assert(a.drop_last()[i] == a[i]);
            }
        }
        lemma_ws_fold_plain(a.drop_last());
        assert(!is_ws(a[a.len() - 1]));
        assert(a.drop_last().push(a.last()) =~= a);
    }
}

/// Reading `y` after a text that ends between words adds the words of `y`.
pub proof fn lemma_ws_fold_concat(x: Seq<char>, y: Seq<char>)
    requires
        ws_fold(x).1.len() == 0,
    ensures
        ws_fold(x + y) == (ws_fold(x).0 + ws_fold(y).0, ws_fold(y).1),
    decreases y.len(),
{
    if y.len() == 0 {
        assert(x + y =~= x);
        assert(ws_fold(x).0 + Seq::<Seq<char>>::empty() =~= ws_fold(x).0);
    } else {
        lemma_ws_fold_concat(x, y.drop_last());
        assert((x + y).drop_last() =~= x + y.drop_last());
        assert((x + y).last() == y.last());
        let (ty, cy) = ws_fold(y.drop_last());
        assert((ws_fold(x).0 + ty).push(cy) =~= ws_fold(x).0 + ty.push(cy));
    }
}

/// A word without whitespace followed by a space starts the word list.
pub proof fn lemma_ws_words_cons(a: Seq<char>, b: Seq<char>)
    requires
        a.len() > 0,
        no_ws(a),
    ensures
        ws_words(a + seq![' '] + b) == seq![a] + ws_words(b),
{
    lemma_ws_fold_plain(a);
    let x = a + seq![' '];
    assert(x.drop_last() =~= a);
    assert(x.last() == ' ');
    assert(ws_fold(x) == (seq![a], Seq::<char>::empty()));
    lemma_ws_fold_concat(x, b);
    assert(x + b =~= a + seq![' '] + b);
    let (tb, cb) = ws_fold(b);
    assert((seq![a] + tb).push(cb) =~= seq![a] + tb.push(cb));
}

/// A non-empty text without whitespace is a single word.
pub proof fn lemma_ws_words_single(a: Seq<char>)
    requires
        a.len() > 0,
        no_ws(a),
    ensures
        ws_words(a) == seq![a],
{
    lemma_ws_fold_plain(a);
    assert(Seq::<Seq<char>>::empty().push(a) =~= seq![a]);
}


/// The pieces of `ps` joined with `sep` between them.
pub open spec fn join_spec(ps: Seq<Seq<char>>, sep: char) -> Seq<char>
    decreases ps.len(),
{
    if ps.len() == 0 {
        Seq::<char>::empty()
    } else if ps.len() == 1 {
        ps[0]
    } else {
        join_spec(ps.drop_last(), sep) + seq![sep] + ps.last()
    }
}

/// Joining the pieces of a split gives the text back.
pub proof fn lemma_join_split(s: Seq<char>, sep: char)
    ensures
        join_spec(split_spec(s, sep), sep) == s,
    decreases s.len(),
{
    if s.len() > 0 {
        let t = s.drop_last();
        let x = s.last();
        lemma_join_split(t, sep);
        lemma_split_spec_nonempty(t, sep);
        let ps = split_spec(t, sep);
        if x == sep {
            assert(split_spec(s, sep) == ps.push(Seq::<char>::empty()));
            assert(ps.push(Seq::<char>::empty()).drop_last() =~= ps);
            assert(join_spec(ps, sep) + seq![sep] + Seq::<char>::empty() =~= s);
        } else {
            let l = ps.last();
            let qs = ps.update(ps.len() - 1, l.push(x));
            assert(split_spec(s, sep) == qs);
            if ps.len() == 1 {
                assert(join_spec(ps, sep) == l);
                assert(qs[0] == l.push(x));
                assert(l.push(x) =~= s);
            } else {
                assert(qs.drop_last() =~= ps.drop_last());
                assert(join_spec(ps, sep) == join_spec(ps.drop_last(), sep) + seq![sep] + l);
                assert(s =~= t.push(x));
                assert((join_spec(ps.drop_last(), sep) + seq![sep] + l).push(x) =~= join_spec(ps.drop_last(), sep) + seq![sep] + l.push(x));
                assert(join_spec(qs, sep) == join_spec(qs.drop_last(), sep) + seq![sep] + qs.last());
            }
        }
    }
}

/// Splitting a join of non-empty lists of pieces free of the separator gives
/// the pieces back.
pub proof fn lemma_split_join(ps: Seq<Seq<char>>, sep: char)
    requires
        ps.len() > 0,
        forall|i: int| 0 <= i < ps.len() ==> !(#[trigger] ps[i]).contains(sep),
    ensures
        split_spec(join_spec(ps, sep), sep) == ps,
    decreases ps.len(),
{
    if ps.len() == 1 {
        lemma_split_plain(ps[0], sep);
        assert(seq![ps[0]] =~= ps);
    } else {
        let qs = ps.drop_last();
        assert forall|i: int| 0 <= i < qs.len() implies !(#[trigger] qs[i]).contains(sep) by {
            assert(qs[i] == ps[i]);
        }
        lemma_split_join(qs, sep);
        let a = join_spec(qs, sep);
        lemma_split_append_piece(a, ps.last(), sep);
        assert(qs.push(ps.last()) =~= ps);
    }
}

/// A text free of the separator splits into itself alone.
pub proof fn lemma_split_plain(a: Seq<char>, sep: char)
    requires
        !a.contains(sep),
    ensures
        split_spec(a, sep) == seq![a],
    decreases a.len(),
{
    if a.len() == 0 {
        assert(a =~= Seq::<char>::empty());
    } else {
        let t = a.drop_last();
        assert(!t.contains(sep)) by {
            if t.contains(sep) {
                let k = choose|k: int| 0 <= k < t.len() && t[k] == sep;
                assert(a[k] == sep);
            }
        }
        lemma_split_plain(t, sep);
        assert(a.last() != sep) by {
            assert(a[a.len() - 1] == a.last());
        }
        assert(t.push(a.last()) =~= a);
        assert(split_spec(a, sep) == seq![t].update(0, t.push(a.last())));
        assert(seq![t].update(0, t.push(a.last())) =~= seq![a]);
    }
}

/// Appending a separator and a piece free of it adds that piece.
pub proof fn lemma_split_append_piece(a: Seq<char>, q: Seq<char>, sep: char)
    requires
        !q.contains(sep),
    ensures
        split_spec(a + seq![sep] + q, sep) == split_spec(a, sep).push(q),
    decreases q.len(),
{
    if q.len() == 0 {
        let s = a + seq![sep] + q;
        assert(s.drop_last() =~= a);
        assert(s.last() == sep);
        assert(q =~= Seq::<char>::empty());
        assert(split_spec(s, sep) == split_spec(s.drop_last(), sep).push(Seq::<char>::empty()));
    } else {
        let t = q.drop_last();
        assert(!t.contains(sep)) by {
            if t.contains(sep) {
                let k = choose|k: int| 0 <= k < t.len() && t[k] == sep;
                assert(q[k] == sep);
            }
        }
        lemma_split_append_piece(a, t, sep);
        let s = a + seq![sep] + q;
        assert(s.drop_last() =~= a + seq![sep] + t);
        assert(s.last() == q.last());
        assert(q.last() != sep) by {
            assert(q[q.len() - 1] == q.last());
        }
        let ps = split_spec(a, sep).push(t);
        assert(ps.update(ps.len() - 1, t.push(q.last())) =~= split_spec(a, sep).push(q)) by {
            assert(t.push(q.last()) =~= q);
        }
    }
}

/// Texts with equal splits are equal.
pub proof fn lemma_split_injective(a: Seq<char>, b: Seq<char>, sep: char)
    requires
        split_spec(a, sep) == split_spec(b, sep),
    ensures
        a == b,
{
    lemma_join_split(a, sep);
    lemma_join_split(b, sep);
}

/// How many characters of `s` remain once trailing whitespace is dropped.
pub open spec fn trim_end_len(s: Seq<char>) -> nat
    decreases s.len(),
{
    if s.len() > 0 && is_ws(s.last()) {
        trim_end_len(s.drop_last())
    } else {
        s.len()
    }
}

/// `str::trim_end`: `s` without its trailing whitespace.
pub fn trim_end(s: &str) -> (t: String)
    ensures
        t@ == s@.take(trim_end_len(s@) as int),
{
    let chars = chars_of(s);
    let mut end = chars.len();
    assert(s@.take(end as int) =~= s@);
    while end > 0 && is_whitespace_char(chars[end - 1])
        invariant
            chars@ == s@,
            end <= s@.len(),
            trim_end_len(s@) == trim_end_len(s@.take(end as int)),
        decreases end,
    {
        assert(s@.take(end as int).drop_last() =~= s@.take(end - 1));
        end = end - 1;
    }
    assert(trim_end_len(s@.take(end as int)) == end);
    substring(s, 0, end)
}

/// Splitting text joined at a separator splits each side apart.
pub proof fn lemma_split_concat(a: Seq<char>, b: Seq<char>, sep: char)
    ensures
        split_spec(a + seq![sep] + b, sep) == split_spec(a, sep) + split_spec(b, sep),
    decreases b.len(),
{
    let s = a + seq![sep] + b;
    lemma_split_spec_nonempty(a, sep);
    if b.len() == 0 {
        assert(s.drop_last() =~= a);
        assert(split_spec(a, sep).push(Seq::<char>::empty()) =~= split_spec(a, sep) + seq![Seq::<char>::empty()]);
    } else {
        let b1 = b.drop_last();
        lemma_split_concat(a, b1, sep);
        lemma_split_spec_nonempty(b1, sep);
        assert(s.drop_last() =~= a + seq![sep] + b1);
        assert(s.last() == b.last());
        let x = split_spec(a, sep);
        let y = split_spec(b1, sep);
        if b.last() == sep {
            assert((x + y).push(Seq::<char>::empty()) =~= x + y.push(Seq::<char>::empty()));
        } else {
            assert((x + y).update((x + y).len() - 1, (x + y).last().push(b.last())) =~= x + y.update(
                y.len() - 1,
                y.last().push(b.last()),
            ));
        }
    }
}

/// Joining two non-empty lists of pieces puts a separator between their
/// joins.
pub proof fn lemma_join_concat(p: Seq<Seq<char>>, q: Seq<Seq<char>>, sep: char)
    requires
        p.len() > 0,
        q.len() > 0,
    ensures
        join_spec(p + q, sep) == join_spec(p, sep) + seq![sep] + join_spec(q, sep),
    decreases q.len(),
{
    if q.len() == 1 {
        assert((p + q).drop_last() =~= p);
        assert((p + q).last() == q[0]);
    } else {
        let q1 = q.drop_last();
        lemma_join_concat(p, q1, sep);
        assert((p + q).drop_last() =~= p + q1);
        assert((p + q).last() == q.last());
    }
}

} // verus!

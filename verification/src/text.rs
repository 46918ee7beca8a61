//! A model of the string functions this crate leans on (whitespace, `trim`,
//! `lines`, `split_whitespace`, substring search, joining) as spec functions
//! over `Seq<char>`, with executable versions proved against them.

use vstd::prelude::*;

verus! {

/// `String::push`. Claimed, as its documentation says: the character is
/// appended to the end of the string and nothing else changes.
pub assume_specification[ String::push ](s: &mut String, ch: char)
    ensures
        final(s)@ == old(s)@.push(ch),
;

/// `char::is_whitespace`: the Unicode `White_Space` property.
pub open spec fn is_ws(c: char) -> bool {
    ||| ('\u{9}' <= c && c <= '\u{d}')
    ||| c == ' '
    ||| c == '\u{85}'
    ||| c == '\u{a0}'
    ||| c == '\u{1680}'
    ||| ('\u{2000}' <= c && c <= '\u{200a}')
    ||| c == '\u{2028}'
    ||| c == '\u{2029}'
    ||| c == '\u{202f}'
    ||| c == '\u{205f}'
    ||| c == '\u{3000}'
}

pub fn is_whitespace(c: char) -> (b: bool)
    ensures
        b == is_ws(c),
{
    ('\u{9}' <= c && c <= '\u{d}') || c == ' ' || c == '\u{85}' || c == '\u{a0}' || c
        == '\u{1680}' || ('\u{2000}' <= c && c <= '\u{200a}') || c == '\u{2028}' || c
        == '\u{2029}' || c == '\u{202f}' || c == '\u{205f}' || c == '\u{3000}'
}

/// The characters of a string slice.
pub fn chars_of(s: &str) -> (v: Vec<char>)
    ensures
        v@ == s@,
{
    let mut v: Vec<char> = Vec::new();
    for c in it: s.chars()
        invariant
            v@ == it.seq().take(it.index() as int),
    {
        v.push(c);
    }
    v
}

/// A string holding the given characters.
pub fn string_of(v: &[char]) -> (s: String)
    ensures
        s@ == v@,
{
    let mut s = String::new();
    let n = v.len();
    for i in 0..n
        invariant
            n == v@.len(),
            s@ == v@.take(i as int),
    {
        s.push(v[i]);
        assert(v@.take(i + 1) == v@.take(i as int).push(v@[i as int]));
    }
    assert(v@.take(n as int) == v@);
    s
}


/// The characters of `s` from index `start` up to `end`.
pub fn copy_range(s: &[char], start: usize, end: usize) -> (v: Vec<char>)
    requires
        start <= end <= s@.len(),
    ensures
        v@ == s@.subrange(start as int, end as int),
{
    let mut v: Vec<char> = Vec::new();
    let mut i = start;
    while i < end
        invariant
            start <= i <= end <= s@.len(),
            v@ == s@.subrange(start as int, i as int),
        decreases end - i,
    {
        v.push(s[i]);
        assert(s@.subrange(start as int, i + 1) == s@.subrange(start as int, i as int).push(
            s@[i as int],
        ));
        i += 1;
    }
    v
}

/// The views of a sequence of character vectors.
pub open spec fn views(v: Seq<Vec<char>>) -> Seq<Seq<char>> {
    v.map_values(|x: Vec<char>| x@)
}

// ---------------------------------------------------------------- trim

/// `str::trim_start`: leading whitespace removed.
pub open spec fn trim_start(s: Seq<char>) -> Seq<char>
    decreases s.len(),
{
    if s.len() > 0 && is_ws(s[0]) {
        trim_start(s.drop_first())
    } else {
        s
    }
}

/// `str::trim_end`: trailing whitespace removed.
pub open spec fn trim_end(s: Seq<char>) -> Seq<char>
    decreases s.len(),
{
    if s.len() > 0 && is_ws(s.last()) {
        trim_end(s.drop_last())
    } else {
        s
    }
}

/// `str::trim`: leading and trailing whitespace removed.
pub open spec fn trim(s: Seq<char>) -> Seq<char> {
    trim_end(trim_start(s))
}

pub proof fn lemma_trim_start_suffix(s: Seq<char>)
    ensures
        trim_start(s).len() <= s.len(),
        trim_start(s) == s.skip(s.len() - trim_start(s).len()),
        trim_start(s).len() > 0 ==> !is_ws(trim_start(s)[0]),
    decreases s.len(),
{
    if s.len() > 0 && is_ws(s[0]) {
        lemma_trim_start_suffix(s.drop_first());
        assert(s.drop_first().skip(s.drop_first().len() - trim_start(s).len()) == s.skip(
            s.len() - trim_start(s).len(),
        ));
    }
}

pub proof fn lemma_trim_end_prefix(s: Seq<char>)
    ensures
        trim_end(s).len() <= s.len(),
        trim_end(s) == s.take(trim_end(s).len() as int),
        trim_end(s).len() > 0 ==> !is_ws(trim_end(s).last()),
    decreases s.len(),
{
    if s.len() > 0 && is_ws(s.last()) {
        lemma_trim_end_prefix(s.drop_last());
        assert(s.drop_last().take(trim_end(s).len() as int) == s.take(trim_end(s).len() as int));
    }
}

pub proof fn lemma_trim_start_drop_ws_last(l: Seq<char>)
    requires
        l.len() > 0,
        is_ws(l.last()),
    ensures
        trim_start(l.drop_last()) == (if trim_start(l).len() == 0 {
            Seq::<char>::empty()
        } else {
            trim_start(l).drop_last()
        }),
    decreases l.len(),
{
    if l.len() == 1 {
        assert(l.drop_last() =~= Seq::<char>::empty());
        assert(trim_start(l) == trim_start(l.drop_first()));
        assert(l.drop_first() =~= Seq::<char>::empty());
    } else if is_ws(l[0]) {
        assert(l.drop_last().drop_first() == l.drop_first().drop_last());
        assert(l.drop_first().last() == l.last());
        lemma_trim_start_drop_ws_last(l.drop_first());
        assert(l.drop_last()[0] == l[0]);
    } else {
        assert(l.drop_last()[0] == l[0]);
    }
}

/// Whitespace at the end makes no difference to the trimmed text.
pub proof fn lemma_trim_drop_ws_last(l: Seq<char>)
    requires
        l.len() > 0,
        is_ws(l.last()),
    ensures
        trim(l.drop_last()) == trim(l),
{
    lemma_trim_start_drop_ws_last(l);
    lemma_trim_start_suffix(l);
    let t = trim_start(l);
    if t.len() > 0 {
        assert(t.last() == l.last());
        assert(trim_end(t) == trim_end(t.drop_last()));
    }
}

/// A line ending added to text changes its lines only by dropping a
/// carriage return from the last line, or by adding an empty line.
pub proof fn lemma_lines_push_newline(a: Seq<char>)
    ensures
        ({
            let p = split_on(a, '\n');
            if p.last().len() == 0 {
                lines(a.push('\n')) == lines(a).push(Seq::<char>::empty())
            } else {
                &&& lines(a).len() > 0
                &&& lines(a.push('\n')) == lines(a).drop_last().push(strip_cr(lines(a).last()))
            }
        }),
{
    lemma_split_on_len(a, '\n');
    let p = split_on(a, '\n');
    let q = split_on(a.push('\n'), '\n');
    assert(a.push('\n').drop_last() == a);
    assert(q == p.push(Seq::<char>::empty()));
    let f = |l: Seq<char>| strip_cr(l);
    assert(q.take(q.len() - 1) == p);
    if p.last().len() == 0 {
        assert(p.map_values(f) =~= p.take(p.len() - 1).map_values(f).push(strip_cr(p.last())));
        assert(strip_cr(p.last()) =~= Seq::<char>::empty());
    } else {
        assert(p.map_values(f) =~= p.take(p.len() - 1).map_values(f).push(strip_cr(p.last())));
        assert(lines(a).drop_last() =~= p.take(p.len() - 1).map_values(f));
    }
}

/// Trimmed text starts and ends with non-whitespace, and trimming it again
/// changes nothing.
pub proof fn lemma_trim_is_trimmed(s: Seq<char>)
    ensures
        trim(s).len() > 0 ==> !is_ws(trim(s)[0]) && !is_ws(trim(s).last()),
        trim(trim(s)) == trim(s),
{
    let a = trim_start(s);
    lemma_trim_start_suffix(s);
    lemma_trim_end_prefix(a);
    let t = trim(s);
    if t.len() > 0 {
        assert(t[0] == a[0]);
        assert(trim_start(t) == t);
        assert(trim_end(t) == t);
    } else {
        assert(trim_start(t) == t);
    }
}

pub fn trim_chars(s: &[char]) -> (t: Vec<char>)
    ensures
        t@ == trim(s@),
{
    let n = s.len();
    let mut a: usize = 0;
    assert(s@.subrange(0, n as int) == s@);
    while a < n && is_whitespace(s[a])
        invariant
            a <= n == s@.len(),
            trim_start(s@.subrange(a as int, n as int)) == trim_start(s@),
        decreases n - a,
    {
        assert(s@.subrange(a as int, n as int).drop_first() == s@.subrange(a + 1, n as int));
        a += 1;
    }
    assert(s@.subrange(0, n as int) == s@);
    let mut b: usize = n;
    while b > a && is_whitespace(s[b - 1])
        invariant
            a <= b <= n == s@.len(),
            trim_end(s@.subrange(a as int, b as int)) == trim_end(s@.subrange(a as int, n as int)),
        decreases b,
    {
        assert(s@.subrange(a as int, b as int).drop_last() == s@.subrange(a as int, b - 1));
        b -= 1;
    }
    copy_range(s, a, b)
}

/// The text of each string of a sequence.
pub open spec fn texts(v: Seq<String>) -> Seq<Seq<char>> {
    v.map_values(|s: String| s@)
}

/// A string with leading and trailing whitespace removed.
pub fn trim_text(s: &str) -> (t: String)
    ensures
        t@ == trim(s@),
{
    let chars = chars_of(s);
    let t = trim_chars(chars.as_slice());
    string_of(t.as_slice())
}

/// The text of a `Result` whose two sides are strings.
pub open spec fn text_result(r: Result<String, String>) -> Result<Seq<char>, Seq<char>> {
    match r {
        Ok(s) => Ok(s@),
        Err(e) => Err(e@),
    }
}

/// Whether a string is empty or all whitespace, as `s.trim().is_empty()`.
pub fn is_blank(s: &str) -> (b: bool)
    ensures
        b == (trim(s@).len() == 0),
{
    let t = trim_text(s);
    t.as_str().is_empty()
}

// ---------------------------------------------------------------- lines

/// The pieces of `s` between occurrences of `sep`; always at least one.
pub open spec fn split_on(s: Seq<char>, sep: char) -> Seq<Seq<char>>
    decreases s.len(),
{
    if s.len() == 0 {
        seq![Seq::<char>::empty()]
    } else {
        let p = split_on(s.drop_last(), sep);
        if s.last() == sep {
            p.push(Seq::<char>::empty())
        } else {
            p.update(p.len() - 1, p.last().push(s.last()))
        }
    }
}

pub proof fn lemma_split_on_len(s: Seq<char>, sep: char)
    ensures
        split_on(s, sep).len() >= 1,
    decreases s.len(),
{
    if s.len() > 0 {
        lemma_split_on_len(s.drop_last(), sep);
    }
}

/// After a separator, the pieces of what follows continue the pieces of
/// what came before.
pub proof fn lemma_split_on_concat(a: Seq<char>, b: Seq<char>, sep: char)
    requires
        a.len() > 0,
        a.last() == sep,
    ensures
        split_on(a + b, sep) == split_on(a, sep).drop_last() + split_on(b, sep),
    decreases b.len(),
{
    lemma_split_on_len(a.drop_last(), sep);
    if b.len() == 0 {
        assert(a + b == a);
        assert(split_on(a, sep).drop_last() + split_on(b, sep) =~= split_on(a, sep));
    } else {
        let b0 = b.drop_last();
        lemma_split_on_concat(a, b0, sep);
        lemma_split_on_len(b0, sep);
        assert((a + b).drop_last() == a + b0);
        assert((a + b).last() == b.last());
        let head = split_on(a, sep).drop_last();
        let p = split_on(a + b0, sep);
        let q = split_on(b0, sep);
        if b.last() == sep {
            assert(p.push(Seq::<char>::empty()) =~= head + q.push(Seq::<char>::empty()));
        } else {
            assert(p.last() == q.last());
            assert(p.update(p.len() - 1, p.last().push(b.last())) =~= head + q.update(
                q.len() - 1,
                q.last().push(b.last()),
            ));
        }
    }
}

/// Text that ends a line, followed by more text, has the lines of each in
/// turn.
pub proof fn lemma_lines_concat(a: Seq<char>, b: Seq<char>)
    requires
        a.len() == 0 || a.last() == '\n',
    ensures
        lines(a + b) == lines(a) + lines(b),
{
    if a.len() == 0 {
        assert(a + b == b);
        assert(lines(a) =~= Seq::<Seq<char>>::empty()) by {
            assert(split_on(a, '\n') =~= seq![Seq::<char>::empty()]);
        }
        assert(lines(a) + lines(b) =~= lines(b));
    } else {
        lemma_split_on_concat(a, b, '\n');
        lemma_split_on_len(a, '\n');
        lemma_split_on_len(b, '\n');
        lemma_split_on_len(a.drop_last(), '\n');
        let pa = split_on(a, '\n');
        let pb = split_on(b, '\n');
        let head = pa.drop_last();
        assert(pa.last().len() == 0);
        let all = head + pb;
        assert(all.last() == pb.last());
        assert(all.take(all.len() - 1) == head + pb.take(pb.len() - 1));
        assert(pa.take(pa.len() - 1) == head);
        let f = |l: Seq<char>| strip_cr(l);
        assert((head + pb.take(pb.len() - 1)).map_values(f) =~= head.map_values(f) + pb.take(
            pb.len() - 1,
        ).map_values(f));
        assert(lines(a + b) =~= lines(a) + lines(b));
    }
}

/// A line with one trailing carriage return removed.
pub open spec fn strip_cr(l: Seq<char>) -> Seq<char> {
    if l.len() > 0 && l.last() == '\r' {
        l.drop_last()
    } else {
        l
    }
}

/// `str::lines`: the pieces between `\n`, each piece that a `\n` ended
/// losing one trailing `\r`, and no empty last piece after a final `\n`.
pub open spec fn lines(s: Seq<char>) -> Seq<Seq<char>> {
    let parts = split_on(s, '\n');
    let ended = parts.take(parts.len() - 1).map_values(|l: Seq<char>| strip_cr(l));
    if parts.last().len() == 0 {
        ended
    } else {
        ended.push(parts.last())
    }
}

pub fn lines_of(s: &[char]) -> (r: Vec<Vec<char>>)
    ensures
        views(r@) == lines(s@),
{
    let n = s.len();
    let mut done: Vec<Vec<char>> = Vec::new();
    let mut cur: Vec<char> = Vec::new();
    let mut i: usize = 0;
    proof {
        lemma_split_on_len(s@.take(0), '\n');
    }
    while i < n
        invariant
            i <= n == s@.len(),
            split_on(s@.take(i as int), '\n').len() == done@.len() + 1,
            forall|j: int|
                0 <= j < done@.len() ==> #[trigger] done@[j]@ == strip_cr(
                    split_on(s@.take(i as int), '\n')[j],
                ),
            cur@ == split_on(s@.take(i as int), '\n').last(),
        decreases n - i,
    {
        let c = s[i];
        assert(s@.take(i + 1).drop_last() == s@.take(i as int));
        proof {
            lemma_split_on_len(s@.take(i as int), '\n');
        }
        if c == '\n' {
            let mut line = cur;
            let k = line.len();
            if k > 0 && line[k - 1] == '\r' {
                line.pop();
            }
            done.push(line);
            cur = Vec::new();
        } else {
            cur.push(c);
        }
        i += 1;
    }
    assert(s@.take(n as int) == s@);
    proof {
        lemma_split_on_len(s@, '\n');
    }
    if cur.len() > 0 {
        done.push(cur);
    }
    assert(views(done@) =~= lines(s@));
    done
}

// ---------------------------------------------------------------- words

/// `str::split_whitespace`: the maximal runs of non-whitespace characters,
/// read from left to right.
pub open spec fn words(s: Seq<char>) -> Seq<Seq<char>>
    decreases s.len(),
{
    if s.len() == 0 {
        Seq::empty()
    } else {
        let w = words(s.drop_last());
        let c = s.last();
        if is_ws(c) {
            w
        } else if s.len() >= 2 && !is_ws(s[s.len() - 2]) {
            w.update(w.len() - 1, w.last().push(c))
        } else {
            w.push(seq![c])
        }
    }
}

/// A string that ends in a non-whitespace character has at least one word.
pub proof fn lemma_words_nonempty(s: Seq<char>)
    requires
        s.len() > 0,
        !is_ws(s.last()),
    ensures
        words(s).len() >= 1,
    decreases s.len(),
{
    if s.len() >= 2 && !is_ws(s[s.len() - 2]) {
        assert(s.drop_last().last() == s[s.len() - 2]);
        lemma_words_nonempty(s.drop_last());
    }
}

pub fn words_of(s: &[char]) -> (r: Vec<Vec<char>>)
    ensures
        views(r@) == words(s@),
{
    let n = s.len();
    let mut done: Vec<Vec<char>> = Vec::new();
    let mut cur: Vec<char> = Vec::new();
    let mut in_word = false;
    let mut i: usize = 0;
    while i < n
        invariant
            i <= n == s@.len(),
            in_word == (i > 0 && !is_ws(s@[i - 1])),
            words(s@.take(i as int)).len() == done@.len() + (if in_word { 1int } else { 0 }),
            forall|j: int|
                0 <= j < done@.len() ==> #[trigger] done@[j]@ == words(s@.take(i as int))[j],
            in_word ==> cur@ == words(s@.take(i as int)).last(),
            !in_word ==> cur@.len() == 0,
        decreases n - i,
    {
        let c = s[i];
        let ghost t = s@.take(i + 1);
        assert(t.drop_last() == s@.take(i as int));
        assert(t.last() == c);
        if i > 0 {
            assert(t[t.len() - 2] == s@[i - 1]);
        }
        if is_whitespace(c) {
            if in_word {
                done.push(cur);
                cur = Vec::new();
            }
            in_word = false;
        } else {
            if in_word {
                proof {
                    lemma_words_nonempty(s@.take(i as int));
                }
                cur.push(c);
            } else {
                cur = Vec::new();
                cur.push(c);
                assert(cur@ == seq![c]);
            }
            in_word = true;
        }
        i += 1;
    }
    assert(s@.take(n as int) == s@);
    if in_word {
        done.push(cur);
    }
    assert(views(done@) =~= words(s@));
    done
}

/// Every word is non-empty and holds no whitespace.
pub proof fn lemma_words_are_words(s: Seq<char>)
    ensures
        forall|i: int|
            0 <= i < words(s).len() ==> (#[trigger] words(s)[i]).len() > 0 && forall|j: int|
                0 <= j < words(s)[i].len() ==> !is_ws(words(s)[i][j]),
    decreases s.len(),
{
    if s.len() > 0 {
        let w = words(s.drop_last());
        lemma_words_are_words(s.drop_last());
        let c = s.last();
        if !is_ws(c) && s.len() >= 2 && !is_ws(s[s.len() - 2]) {
            assert(s.drop_last().last() == s[s.len() - 2]);
            lemma_words_nonempty(s.drop_last());
            let r = words(s);
            assert forall|i: int| 0 <= i < r.len() implies (#[trigger] r[i]).len() > 0
                && forall|j: int| 0 <= j < r[i].len() ==> !is_ws(r[i][j]) by {
                if i == r.len() - 1 {
                    assert(r[i] == w.last().push(c));
                    assert forall|j: int| 0 <= j < r[i].len() implies !is_ws(r[i][j]) by {
                        if j < r[i].len() - 1 {
                            assert(r[i][j] == w[w.len() - 1][j]);
                        }
                    }
                } else {
                    assert(r[i] == w[i]);
                }
            }
        } else if !is_ws(c) {
            let r = words(s);
            assert forall|i: int| 0 <= i < r.len() implies (#[trigger] r[i]).len() > 0
                && forall|j: int| 0 <= j < r[i].len() ==> !is_ws(r[i][j]) by {
                if i == r.len() - 1 {
                    assert(r[i] == seq![c]);
                } else {
                    assert(r[i] == w[i]);
                }
            }
        }
    }
}

// ---------------------------------------------------------------- join

/// `[&str]::join`: the pieces with `sep` between neighbours.
pub open spec fn join(ts: Seq<Seq<char>>, sep: Seq<char>) -> Seq<char>
    decreases ts.len(),
{
    if ts.len() == 0 {
        Seq::empty()
    } else if ts.len() == 1 {
        ts[0]
    } else {
        join(ts.drop_last(), sep) + sep + ts.last()
    }
}

/// A whole word after a break (nothing, or whitespace) is one more word.
pub proof fn lemma_words_append_word(p: Seq<char>, w: Seq<char>)
    requires
        p.len() == 0 || is_ws(p.last()),
        w.len() > 0,
        forall|j: int| 0 <= j < w.len() ==> !is_ws(w[j]),
    ensures
        words(p + w) == words(p).push(w),
    decreases w.len(),
{
    let s = p + w;
    assert(s.drop_last() == p + w.drop_last());
    assert(s.last() == w.last());
    if w.len() == 1 {
        assert(s.drop_last() == p);
        if s.len() >= 2 {
            assert(s[s.len() - 2] == p.last());
        }
        assert(seq![w.last()] == w);
    } else {
        lemma_words_append_word(p, w.drop_last());
        assert(s[s.len() - 2] == w[w.len() - 2]);
        assert(w.drop_last().push(w.last()) == w);
    }
}

/// Joining words with single spaces and splitting at whitespace again gives
/// the same words back.
pub proof fn lemma_words_of_join(ts: Seq<Seq<char>>)
    requires
        forall|i: int|
            0 <= i < ts.len() ==> (#[trigger] ts[i]).len() > 0 && forall|j: int|
                0 <= j < ts[i].len() ==> !is_ws(ts[i][j]),
    ensures
        words(join(ts, seq![' '])) == ts,
    decreases ts.len(),
{
    if ts.len() == 1 {
        assert(Seq::<char>::empty() + ts[0] == ts[0]);
        lemma_words_append_word(Seq::empty(), ts[0]);
        assert(ts =~= seq![ts[0]]);
    } else if ts.len() > 1 {
        let init = ts.drop_last();
        lemma_words_of_join(init);
        let p = join(init, seq![' ']) + seq![' '];
        assert(p.drop_last() == join(init, seq![' ']));
        assert(words(p) == words(join(init, seq![' '])));
        lemma_words_append_word(p, ts.last());
        assert(init.push(ts.last()) == ts);
    } else {
        assert(ts =~= Seq::<Seq<char>>::empty());
    }
}

/// The pieces `ts[start..]` joined with `sep` between neighbours.
pub fn join_from(ts: &Vec<Vec<char>>, start: usize, sep: &[char]) -> (r: Vec<char>)
    requires
        start <= ts@.len(),
    ensures
        r@ == join(views(ts@).subrange(start as int, ts@.len() as int), sep@),
{
    let n = ts.len();
    let mut r: Vec<char> = Vec::new();
    let mut i = start;
    while i < n
        invariant
            start <= i <= n == ts@.len(),
            r@ == join(views(ts@).subrange(start as int, i as int), sep@),
        decreases n - i,
    {
        let ghost pre = views(ts@).subrange(start as int, i as int);
        let ghost post = views(ts@).subrange(start as int, i + 1);
        assert(post.drop_last() == pre);
        assert(post.last() == ts@[i as int]@);
        if i > start {
            append_all(&mut r, sep);
        }
        let piece = &ts[i];
        append_all(&mut r, piece.as_slice());
        if i == start {
            assert(post.len() == 1);
        }
        i += 1;
    }
    r
}

/// Appends all of `extra` to `v`.
pub fn append_all(v: &mut Vec<char>, extra: &[char])
    ensures
        final(v)@ == old(v)@ + extra@,
{
    let n = extra.len();
    let ghost start = v@;
    for i in 0..n
        invariant
            n == extra@.len(),
            v@ == start + extra@.take(i as int),
    {
        v.push(extra[i]);
        assert(extra@.take(i + 1) == extra@.take(i as int).push(extra@[i as int]));
    }
    assert(extra@.take(n as int) == extra@);
}

// ---------------------------------------------------------------- search

/// `p` occurs in `s` starting at index `i`.
pub open spec fn occurs_at(s: Seq<char>, p: Seq<char>, i: int) -> bool {
    0 <= i && i + p.len() <= s.len() && s.subrange(i, i + p.len()) == p
}

/// `str::contains` with a string pattern.
pub open spec fn contains(s: Seq<char>, p: Seq<char>) -> bool {
    exists|i: int| occurs_at(s, p, i)
}

/// `str::starts_with` with a string pattern.
pub open spec fn has_prefix(s: Seq<char>, p: Seq<char>) -> bool {
    p.len() <= s.len() && s.take(p.len() as int) == p
}

pub fn matches_at(s: &[char], p: &[char], i: usize) -> (b: bool)
    ensures
        b == occurs_at(s@, p@, i as int),
{
    let n = s.len();
    let m = p.len();
    if i > n || m > n - i {
        return false;
    }
    let mut j: usize = 0;
    while j < m
        invariant
            i + m <= n == s@.len(),
            m == p@.len(),
            j <= m,
            forall|k: int| 0 <= k < j ==> s@[i + k] == p@[k],
        decreases m - j,
    {
        if s[i + j] != p[j] {
            assert(s@.subrange(i as int, i + m)[j as int] != p@[j as int]);
            return false;
        }
        j += 1;
    }
    assert(s@.subrange(i as int, i + m) =~= p@);
    true
}

pub fn contains_chars(s: &[char], p: &[char]) -> (b: bool)
    ensures
        b == contains(s@, p@),
{
    let n = s.len();
    let m = p.len();
    if m == 0 {
        assert(s@.subrange(0, 0) =~= p@);
        assert(occurs_at(s@, p@, 0));
        return true;
    }
    if m > n {
        assert forall|k: int| !occurs_at(s@, p@, k) by {}
        return false;
    }
    let last = n - m + 1;
    for i in 0..last
        invariant
            n == s@.len(),
            m == p@.len(),
            last == n - m + 1,
            forall|k: int| 0 <= k < i ==> !occurs_at(s@, p@, k),
    {
        if matches_at(s, p, i) {
            return true;
        }
    }
    assert forall|k: int| !occurs_at(s@, p@, k) by {}
    false
}

pub fn has_prefix_chars(s: &[char], p: &[char]) -> (b: bool)
    ensures
        b == has_prefix(s@, p@),
{
    let r = matches_at(s, p, 0);
    assert(s@.take(p@.len() as int) == s@.subrange(0, p@.len() as int));
    r
}

/// Character sequences compared for equality.
pub fn same_chars(a: &[char], b: &[char]) -> (r: bool)
    ensures
        r == (a@ == b@),
{
    if a.len() != b.len() {
        return false;
    }
    let r = matches_at(a, b, 0);
    assert(a@.subrange(0, b@.len() as int) == a@);
    r
}

/// Two strings compared for equality.
pub fn same_text(a: &str, b: &str) -> (r: bool)
    ensures
        r == (a@ == b@),
{
    let x = chars_of(a);
    let y = chars_of(b);
    same_chars(x.as_slice(), y.as_slice())
}

// ---------------------------------------------------------------- split once

/// Index of the last `c` in `s`, or -1.
pub open spec fn last_index(s: Seq<char>, c: char) -> int
    decreases s.len(),
{
    if s.len() == 0 {
        -1
    } else if s.last() == c {
        s.len() - 1
    } else {
        last_index(s.drop_last(), c)
    }
}

pub proof fn lemma_last_index_bounds(s: Seq<char>, c: char)
    ensures
        -1 <= last_index(s, c) < s.len(),
        last_index(s, c) >= 0 ==> s[last_index(s, c)] == c,
        forall|k: int| last_index(s, c) < k < s.len() ==> s[k] != c,
    decreases s.len(),
{
    if s.len() > 0 && s.last() != c {
        lemma_last_index_bounds(s.drop_last(), c);
        assert forall|k: int| last_index(s, c) < k < s.len() implies s[k] != c by {
            if k < s.len() - 1 {
                assert(s[k] == s.drop_last()[k]);
            }
        }
    }
}

/// Index of the last `c` in `s`.
pub fn find_last(s: &[char], c: char) -> (r: Option<usize>)
    ensures
        match r {
            Some(k) => last_index(s@, c) == k,
            None => last_index(s@, c) == -1,
        },
{
    let n = s.len();
    let mut found: Option<usize> = None;
    for i in 0..n
        invariant
            n == s@.len(),
            match found {
                Some(k) => last_index(s@.take(i as int), c) == k,
                None => last_index(s@.take(i as int), c) == -1,
            },
    {
        assert(s@.take(i + 1).drop_last() == s@.take(i as int));
        if s[i] == c {
            found = Some(i);
        }
    }
    assert(s@.take(n as int) == s@);
    found
}

// ---------------------------------------------------------------- numbers

/// The decimal digit for `d < 10`.
pub open spec fn digit_char(d: nat) -> char {
    (48 + d) as char
}

/// `u64::to_string`: the decimal form of `n`, with no leading zeros.
pub open spec fn decimal(n: nat) -> Seq<char>
    decreases n,
{
    if n < 10 {
        seq![digit_char(n)]
    } else {
        decimal(n / 10).push(digit_char(n % 10))
    }
}

/// Different numbers have different decimal forms.
pub proof fn lemma_decimal_injective(a: nat, b: nat)
    requires
        decimal(a) == decimal(b),
    ensures
        a == b,
    decreases a,
{
    let x = decimal(a);
    assert(x.last() == digit_char(a % 10)) by {
        if a < 10 {
            assert(a % 10 == a);
        }
    }
    assert(decimal(b).last() == digit_char(b % 10)) by {
        if b < 10 {
            assert(b % 10 == b);
        }
    }
    assert((48 + a % 10) as char as int == 48 + a % 10);
    assert((48 + b % 10) as char as int == 48 + b % 10);
    if a < 10 && b < 10 {
    } else if a >= 10 && b >= 10 {
        assert(decimal(a / 10) == x.drop_last());
        assert(decimal(b / 10) == decimal(b).drop_last());
        lemma_decimal_injective(a / 10, b / 10);
    } else if a < 10 {
        lemma_decimal_nonempty(b / 10);
        assert(decimal(b).len() >= 2);
    } else {
        lemma_decimal_nonempty(a / 10);
        assert(decimal(a).len() >= 2);
    }
}

pub proof fn lemma_decimal_nonempty(n: nat)
    ensures
        decimal(n).len() >= 1,
    decreases n,
{
    if n >= 10 {
        lemma_decimal_nonempty(n / 10);
    }
}

/// Appends the decimal form of `n` to `out`.
pub fn push_decimal(out: &mut String, n: u64)
    ensures
        final(out)@ == old(out)@ + decimal(n as nat),
    decreases n,
{
    if n >= 10 {
        push_decimal(out, n / 10);
    }
    let d = (n % 10) as u8;
    out.push((48u8 + d) as char);
}


// ---------------------------------------------------------------- std

/// What `str::to_lowercase` returns: the Unicode lowercase mapping of each
/// character, which is a function of the string alone.
pub uninterp spec fn lowercase_of(s: Seq<char>) -> Seq<char>;

/// `str::to_lowercase`. Claimed: the result is `lowercase_of` the argument;
/// nothing is said of how Unicode maps individual characters.
#[verifier::external_body]
pub(crate) fn to_lowercase(s: &str) -> (r: String)
    ensures
        r@ == lowercase_of(s@),
{
    s.to_lowercase()
}

/// What `String::from_utf8_lossy` returns for some bytes.
pub uninterp spec fn utf8_lossy(bytes: Seq<u8>) -> Seq<char>;

/// `String::from_utf8_lossy`, made owned. Claimed: the result is
/// `utf8_lossy` of the bytes, and on valid UTF-8 it is the decoded text.
/// How invalid sequences are replaced by U+FFFD is left unsaid.
#[verifier::external_body]
pub(crate) fn decode_lossy(bytes: &[u8]) -> (s: String)
    ensures
        s@ == utf8_lossy(bytes@),
        vstd::utf8::valid_utf8(bytes@) ==> s@ == vstd::utf8::decode_utf8(bytes@),
{
    String::from_utf8_lossy(bytes).into_owned()
}

} // verus!

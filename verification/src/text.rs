//! Character-level helpers shared by the parsers and formatters.
use vstd::prelude::*;
use vstd::std_specs::iter::IteratorSpec;

verus! {

broadcast use vstd::string::group_string_axioms;

/// Appends one character to a `String` (`String::push`).
/// Trusted: `String::push` appends exactly the given character.
#[verifier::external_body]
pub(crate) fn push_char(s: &mut String, c: char)
    ensures
        final(s)@ == old(s)@.push(c),
{
    s.push(c);
}

/// The characters of `s`, in order.
pub fn chars_of(s: &str) -> (v: Vec<char>)
    ensures
        v@ == s@,
{
    let mut v: Vec<char> = Vec::new();
    let mut chars_it = s.chars();
    for c in it: chars_it
        invariant
            it.seq() == s@,
            v@ == s@.take(it.index() as int),
    {
        proof {
            assert(s@.take(it.index() + 1) =~= s@.take(it.index() as int).push(c));
        }
        v.push(c);
    }
    assert(v@ =~= s@);
    v
}


/// Copies a sequence of characters into a new `String`.
pub fn string_from_chars(cs: &Vec<char>) -> (r: String)
    ensures
        r@ == cs@,
{
    let mut r = String::new();
    let mut i: usize = 0;
    while i < cs.len()
        invariant
            i <= cs.len(),
            r@ == cs@.take(i as int),
        decreases cs.len() - i,
    {
        proof {
            assert(cs@.take(i + 1) =~= cs@.take(i as int).push(cs@[i as int]));
        }
        push_char(&mut r, cs[i]);
        i += 1;
    }
    proof {
        assert(cs@.take(i as int) =~= cs@);
    }
    r
}

/// The views of a sequence of character vectors.
pub open spec fn views(v: Seq<Vec<char>>) -> Seq<Seq<char>> {
    v.map_values(|x: Vec<char>| x@)
}

/// Unicode `White_Space`, the set that `char::is_whitespace` tests.
pub open spec fn is_white_space(c: char) -> bool {
    let n = c as u32;
    ||| 0x9 <= n && n <= 0xd
    ||| n == 0x20
    ||| n == 0x85
    ||| n == 0xa0
    ||| n == 0x1680
    ||| 0x2000 <= n && n <= 0x200a
    ||| n == 0x2028
    ||| n == 0x2029
    ||| n == 0x202f
    ||| n == 0x205f
    ||| n == 0x3000
}

/// Tests whether `c` is white space.
pub fn white_space(c: char) -> (b: bool)
    ensures
        b == is_white_space(c),
{
    let n = c as u32;
    (0x9 <= n && n <= 0xd) || n == 0x20 || n == 0x85 || n == 0xa0 || n == 0x1680 || (0x2000
        <= n && n <= 0x200a) || n == 0x2028 || n == 0x2029 || n == 0x202f || n == 0x205f || n
        == 0x3000
}

/// The pieces of `s` between the characters that `sep` selects, as
/// `str::split` yields them: one more piece than there are separators.
pub open spec fn pieces(s: Seq<char>, sep: spec_fn(char) -> bool) -> Seq<Seq<char>>
    decreases s.len(),
{
    if s.len() == 0 {
        seq![seq![]]
    } else {
        let p = pieces(s.drop_last(), sep);
        if sep(s.last()) {
            p.push(seq![])
        } else {
            p.update(p.len() - 1, p.last().push(s.last()))
        }
    }
}

/// Splitting always yields at least one piece.
pub proof fn lemma_pieces_nonempty(s: Seq<char>, sep: spec_fn(char) -> bool)
    ensures
        pieces(s, sep).len() >= 1,
    decreases s.len(),
{
    if s.len() > 0 {
        lemma_pieces_nonempty(s.drop_last(), sep);
    }
}

/// The newline separator.
pub open spec fn newline() -> spec_fn(char) -> bool {
    |c: char| c == '\n'
}

/// The white-space separator.
pub open spec fn white() -> spec_fn(char) -> bool {
    |c: char| is_white_space(c)
}

/// A line with the carriage return of a `\r\n` ending removed.
pub open spec fn strip_cr(l: Seq<char>) -> Seq<char> {
    if l.len() > 0 && l.last() == '\r' {
        l.drop_last()
    } else {
        l
    }
}

/// The lines of `s`, as `str::lines` yields them: split at `\n`, a `\r`
/// before a `\n` dropped, and an empty last piece (after a final `\n`, or
/// of an empty text) left out.
pub open spec fn text_lines(s: Seq<char>) -> Seq<Seq<char>> {
    let p = pieces(s, newline());
    let body = p.drop_last().map_values(|l: Seq<char>| strip_cr(l));
    if p.last().len() == 0 {
        body
    } else {
        body.push(p.last())
    }
}

/// The white-space separated fields of `s`, as `str::split_whitespace`
/// yields them.
pub open spec fn fields(s: Seq<char>) -> Seq<Seq<char>> {
    pieces(s, white()).filter(non_empty())
}

/// Selects the non-empty pieces.
pub open spec fn non_empty() -> spec_fn(Seq<char>) -> bool {
    |p: Seq<char>| p.len() > 0
}

/// Splits a character sequence at every newline.
fn split_newlines(cs: &Vec<char>) -> (r: Vec<Vec<char>>)
    ensures
        views(r@) == pieces(cs@, newline()),
{
    let mut done: Vec<Vec<char>> = Vec::new();
    let mut cur: Vec<char> = Vec::new();
    let mut i: usize = 0;
    while i < cs.len()
        invariant
            i <= cs.len(),
            views(done@).push(cur@) == pieces(cs@.take(i as int), newline()),
        decreases cs.len() - i,
    {
        let c = cs[i];
        proof {
            let t = cs@.take(i + 1);
            assert(t.drop_last() =~= cs@.take(i as int));
            assert(t.last() == c);
        }
        if c == '\n' {
            let ghost old_done = done@;
            let ghost old_cur = cur@;
            done.push(cur);
            cur = Vec::new();
            proof {
                assert(views(done@) =~= views(old_done).push(old_cur));
                assert(views(done@).push(cur@) =~= views(old_done).push(old_cur).push(seq![]));
            }
        } else {
            let ghost old_cur = cur@;
            cur.push(c);
            proof {
                let p = views(done@).push(old_cur);
                assert(views(done@).push(cur@) =~= p.update(p.len() - 1, p.last().push(c)));
            }
        }
        i += 1;
    }
    let ghost old_done = done@;
    let ghost old_cur = cur@;
    done.push(cur);
    proof {
        assert(cs@.take(i as int) =~= cs@);
        assert(views(done@) =~= views(old_done).push(old_cur));
    }
    done
}

/// Copies a character vector, without its last character when that is a
/// carriage return.
fn strip_cr_copy(l: &Vec<char>) -> (r: Vec<char>)
    ensures
        r@ == strip_cr(l@),
{
    let n = if l.len() > 0 && l[l.len() - 1] == '\r' {
        l.len() - 1
    } else {
        l.len()
    };
    let mut r: Vec<char> = Vec::new();
    let mut i: usize = 0;
    while i < n
        invariant
            n <= l.len(),
            i <= n,
            r@ == l@.take(i as int),
        decreases n - i,
    {
        proof {
            assert(l@.take(i + 1) =~= l@.take(i as int).push(l@[i as int]));
        }
        r.push(l[i]);
        i += 1;
    }
    proof {
        assert(strip_cr(l@) =~= l@.take(n as int));
    }
    r
}

/// The lines of a text, as `str::lines` yields them.
pub fn lines_of(cs: &Vec<char>) -> (r: Vec<Vec<char>>)
    ensures
        views(r@) == text_lines(cs@),
{
    let p = split_newlines(cs);
    proof {
        lemma_pieces_nonempty(cs@, newline());
    }
    let n = p.len();
    let ghost ps = views(p@);
    let mut r: Vec<Vec<char>> = Vec::new();
    let mut k: usize = 0;
    while k + 1 < n
        invariant
            n == p.len(),
            n >= 1,
            ps == views(p@),
            k + 1 <= n,
            views(r@) == ps.take(k as int).map_values(|l: Seq<char>| strip_cr(l)),
        decreases n - k,
    {
        let line = strip_cr_copy(&p[k]);
        let ghost old_r = r@;
        r.push(line);
        proof {
            assert(ps[k as int] == p@[k as int]@);
            assert(ps.take(k + 1).map_values(|l: Seq<char>| strip_cr(l)) =~= ps.take(
                k as int,
            ).map_values(|l: Seq<char>| strip_cr(l)).push(strip_cr(ps[k as int])));
            assert(views(r@) =~= views(old_r).push(line@));
        }
        k += 1;
    }
    proof {
        assert(ps.take(k as int) =~= ps.drop_last());
    }
    if p[n - 1].len() > 0 {
        let full = copy_chars(&p[n - 1]);
        let ghost old_r = r@;
        r.push(full);
        proof {
            assert(views(r@) =~= views(old_r).push(ps.last()));
        }
    }
    r
}

/// A copy of a character vector.
pub fn copy_chars(l: &Vec<char>) -> (r: Vec<char>)
    ensures
        r@ == l@,
{
    let mut r: Vec<char> = Vec::new();
    let mut i: usize = 0;
    while i < l.len()
        invariant
            i <= l.len(),
            r@ == l@.take(i as int),
        decreases l.len() - i,
    {
        proof {
            assert(l@.take(i + 1) =~= l@.take(i as int).push(l@[i as int]));
        }
        r.push(l[i]);
        i += 1;
    }
    proof {
        assert(l@.take(i as int) =~= l@);
    }
    r
}

/// The white-space separated fields of a text, as `str::split_whitespace`
/// yields them.
pub fn fields_of(cs: &Vec<char>) -> (r: Vec<Vec<char>>)
    ensures
        views(r@) == fields(cs@),
{
    let mut done: Vec<Vec<char>> = Vec::new();
    let mut cur: Vec<char> = Vec::new();
    let mut i: usize = 0;
    proof {
        assert(cs@.take(0) =~= Seq::<char>::empty());
        reveal_with_fuel(Seq::filter, 1);
    }
    while i < cs.len()
        invariant
            i <= cs.len(),
            pieces(cs@.take(i as int), white()).len() >= 1,
            views(done@) == pieces(cs@.take(i as int), white()).drop_last().filter(non_empty()),
            cur@ == pieces(cs@.take(i as int), white()).last(),
        decreases cs.len() - i,
    {
        let c = cs[i];
        let ghost p = pieces(cs@.take(i as int), white());
        proof {
            let t = cs@.take(i + 1);
            assert(t.drop_last() =~= cs@.take(i as int));
            assert(t.last() == c);
            assert(p.drop_last().push(p.last()) =~= p);
            p.drop_last().lemma_filter_push(p.last(), non_empty());
        }
        if white_space(c) {
            if cur.len() > 0 {
                let ghost old_done = done@;
                done.push(cur);
                proof {
                    assert(views(done@) =~= views(old_done).push(p.last()));
                }
            }
            cur = Vec::new();
            proof {
                assert(p.push(seq![]).drop_last() =~= p);
            }
        } else {
            cur.push(c);
            proof {
                let q = p.update(p.len() - 1, p.last().push(c));
                assert(q.drop_last() =~= p.drop_last());
                assert(cur@ =~= q.last());
            }
        }
        i += 1;
    }
    let ghost p = pieces(cs@.take(i as int), white());
    proof {
        assert(cs@.take(i as int) =~= cs@);
        assert(p.drop_last().push(p.last()) =~= p);
        p.drop_last().lemma_filter_push(p.last(), non_empty());
    }
    if cur.len() > 0 {
        let ghost old_done = done@;
        done.push(cur);
        proof {
            assert(views(done@) =~= views(old_done).push(p.last()));
        }
    }
    done
}

/// `needle` occurs in `hay` as a run of consecutive characters.
pub open spec fn contains_text(hay: Seq<char>, needle: Seq<char>) -> bool {
    exists|i: int|
        0 <= i && i + needle.len() <= hay.len() && #[trigger] hay.subrange(i, i + needle.len())
            == needle
}

/// Substring search.
pub fn contains_chars(hay: &Vec<char>, needle: &Vec<char>) -> (b: bool)
    ensures
        b == contains_text(hay@, needle@),
{
    let n = needle.len();
    if n > hay.len() {
        return false;
    }
    let last = hay.len() - n;
    let mut i: usize = 0;
    while i <= last
        invariant
            n == needle@.len(),
            last + n == hay@.len(),
            forall|k: int| 0 <= k < i ==> #[trigger] hay@.subrange(k, k + n) != needle@,
        decreases last + 1 - i,
    {
        let mut j: usize = 0;
        let mut same = true;
        while j < n
            invariant
                n == needle@.len(),
                i <= last,
                last + n == hay@.len(),
                hay@.len() == hay.len(),
                j <= n,
                same ==> forall|m: int| 0 <= m < j ==> hay@[i + m] == needle@[m],
                !same ==> hay@.subrange(i as int, i + n) != needle@,
            decreases n - j,
        {
            if hay[i + j] != needle[j] {
                same = false;
                proof {
                    assert(hay@.subrange(i as int, i + n)[j as int] == hay@[i + j]);
                }
            }
            j += 1;
        }
        if same {
            proof {
                assert(hay@.subrange(i as int, i + n) =~= needle@);
            }
            return true;
        }
        if i == last {
            proof {
                assert forall|k: int|
                    0 <= k && k + needle@.len() <= hay@.len() implies #[trigger] hay@.subrange(
                    k,
                    k + needle@.len(),
                ) != needle@ by {
                    assert(k <= i);
                }
            }
            return false;
        }
        i += 1;
    }
    false
}

/// `s` without its leading white space.
pub open spec fn trim_start(s: Seq<char>) -> Seq<char>
    decreases s.len(),
{
    if s.len() > 0 && is_white_space(s[0]) {
        trim_start(s.drop_first())
    } else {
        s
    }
}

/// `s` without its trailing white space.
pub open spec fn trim_end(s: Seq<char>) -> Seq<char>
    decreases s.len(),
{
    if s.len() > 0 && is_white_space(s.last()) {
        trim_end(s.drop_last())
    } else {
        s
    }
}

/// `s` without leading and trailing white space, as `str::trim` gives it.
pub open spec fn trimmed(s: Seq<char>) -> Seq<char> {
    trim_end(trim_start(s))
}

/// The characters of a text without leading and trailing white space.
pub fn trim_chars(cs: &Vec<char>) -> (r: Vec<char>)
    ensures
        r@ == trimmed(cs@),
{
    let n = cs.len();
    let mut a: usize = 0;
    proof {
        assert(cs@.skip(0) =~= cs@);
    }
    while a < n && white_space(cs[a])
        invariant
            n == cs@.len(),
            a <= n,
            trim_start(cs@) == trim_start(cs@.skip(a as int)),
        decreases n - a,
    {
        proof {
            assert(cs@.skip(a as int).drop_first() =~= cs@.skip(a + 1));
        }
        a += 1;
    }
    let mut b: usize = n;
    proof {
        assert(trim_start(cs@.skip(a as int)) == cs@.skip(a as int));
        assert(cs@.skip(a as int) =~= cs@.subrange(a as int, b as int));
    }
    while b > a && white_space(cs[b - 1])
        invariant
            n == cs@.len(),
            a <= b <= n,
            trimmed(cs@) == trim_end(cs@.subrange(a as int, b as int)),
        decreases b,
    {
        proof {
            assert(cs@.subrange(a as int, b as int).drop_last() =~= cs@.subrange(
                a as int,
                b - 1,
            ));
        }
        b -= 1;
    }
    let mut r: Vec<char> = Vec::new();
    let mut k: usize = a;
    while k < b
        invariant
            n == cs@.len(),
            a <= k <= b <= n,
            r@ == cs@.subrange(a as int, k as int),
        decreases b - k,
    {
        proof {
            assert(cs@.subrange(a as int, k + 1) =~= cs@.subrange(a as int, k as int).push(
                cs@[k as int],
            ));
        }
        r.push(cs[k]);
        k += 1;
    }
    r
}

/// Tests whether `s` starts with `prefix`.
pub fn has_prefix(s: &str, prefix: &str) -> (b: bool)
    ensures
        b == prefix@.is_prefix_of(s@),
{
    let sc = chars_of(s);
    let pc = chars_of(prefix);
    if pc.len() > sc.len() {
        return false;
    }
    let mut i: usize = 0;
    while i < pc.len()
        invariant
            pc@ == prefix@,
            sc@ == s@,
            pc@.len() <= sc@.len(),
            i <= pc@.len(),
            forall|k: int| 0 <= k < i ==> pc@[k] == sc@[k],
        decreases pc.len() - i,
    {
        if pc[i] != sc[i] {
            return false;
        }
        i += 1;
    }
    proof {
        assert(sc@.subrange(0, pc@.len() as int) =~= pc@);
    }
    true
}

/// Among ASCII characters, exactly tab, line feed, vertical tab, form feed,
/// carriage return and space are white space; in particular no letter or
/// digit is.
pub proof fn lemma_ascii_white_space(c: char)
    ensures
        (c as u32) < 128 ==> (is_white_space(c) <==> (c == '\t' || c == '\n' || c == '\x0b' || c
            == '\x0c' || c == '\r' || c == ' ')),
{
}

/// A text without separators is a single piece.
pub proof fn lemma_pieces_without_separator(s: Seq<char>, sep: spec_fn(char) -> bool)
    requires
        forall|i: int| 0 <= i < s.len() ==> !sep(#[trigger] s[i]),
    ensures
        pieces(s, sep) == seq![s],
    decreases s.len(),
{
    if s.len() > 0 {
        assert forall|i: int| 0 <= i < s.drop_last().len() implies !sep(#[trigger] s.drop_last()[i]) by {
            assert(s.drop_last()[i] == s[i]);
        }
        lemma_pieces_without_separator(s.drop_last(), sep);
        assert(!sep(s[s.len() - 1]));
        assert(s.drop_last().push(s.last()) =~= s);
        assert(pieces(s, sep) =~= seq![s]);
    } else {
        assert(s =~= Seq::<char>::empty());
        assert(pieces(s, sep) =~= seq![s]);
    }
}

/// Splitting at a separator splits the pieces: the pieces of `a`, then
/// those of `b`.
pub proof fn lemma_pieces_at_separator(a: Seq<char>, c: char, b: Seq<char>, sep: spec_fn(char) -> bool)
    requires
        sep(c),
    ensures
        pieces(a + seq![c] + b, sep) == pieces(a, sep) + pieces(b, sep),
    decreases b.len(),
{
    lemma_pieces_nonempty(a, sep);
    if b.len() == 0 {
        let x = a + seq![c] + b;
        assert(x.drop_last() =~= a);
        assert(x.last() == c);
        assert(pieces(b, sep) =~= seq![Seq::<char>::empty()]);
        assert(pieces(x, sep) =~= pieces(a, sep) + pieces(b, sep));
    } else {
        let x = a + seq![c] + b;
        let b1 = b.drop_last();
        lemma_pieces_at_separator(a, c, b1, sep);
        lemma_pieces_nonempty(b1, sep);
        assert(x.drop_last() =~= a + seq![c] + b1);
        assert(x.last() == b.last());
        let pa = pieces(a, sep);
        let pb1 = pieces(b1, sep);
        if sep(b.last()) {
            assert(pieces(x, sep) =~= (pa + pb1).push(seq![]));
            assert(pieces(b, sep) =~= pb1.push(seq![]));
            assert((pa + pb1).push(seq![]) =~= pa + pb1.push(seq![]));
        } else {
            let q = pa + pb1;
            assert(q.last() == pb1.last());
            assert(pieces(x, sep) =~= q.update(q.len() - 1, pb1.last().push(b.last())));
            assert(pieces(b, sep) =~= pb1.update(pb1.len() - 1, pb1.last().push(b.last())));
            assert(q.update(q.len() - 1, pb1.last().push(b.last())) =~= pa + pb1.update(
                pb1.len() - 1,
                pb1.last().push(b.last()),
            ));
        }
    }
}

/// A carriage return is dropped from the end of a line, and only there.
pub proof fn lemma_strip_cr(l: Seq<char>)
    ensures
        strip_cr(l.push('\r')) == l,
        (l.len() == 0 || l.last() != '\r') ==> strip_cr(l) == l,
{
    assert(l.push('\r').drop_last() =~= l);
}

/// Lines read from the front: a line without a newline, ended by `\n`,
/// is the first line (without a `\r` just before the `\n`), and the lines
/// of the rest follow; a last line without `\n` is kept whole, and an
/// empty text has no lines.
pub proof fn lemma_lines_from_front(l: Seq<char>, rest: Seq<char>)
    requires
        forall|i: int| 0 <= i < l.len() ==> #[trigger] l[i] != '\n',
    ensures
        text_lines(l + seq!['\n'] + rest) == seq![strip_cr(l)] + text_lines(rest),
        text_lines(l) == if l.len() == 0 {
            Seq::<Seq<char>>::empty()
        } else {
            seq![l]
        },
{
    lemma_pieces_without_separator(l, newline());
    lemma_pieces_at_separator(l, '\n', rest, newline());
    lemma_pieces_nonempty(rest, newline());
    let pr = pieces(rest, newline());
    let p = seq![l] + pr;
    assert(p.drop_last() =~= seq![l] + pr.drop_last());
    assert(p.last() == pr.last());
    assert(p.drop_last().map_values(|x: Seq<char>| strip_cr(x)) =~= seq![strip_cr(l)]
        + pr.drop_last().map_values(|x: Seq<char>| strip_cr(x)));
    if pr.last().len() == 0 {
        assert(text_lines(l + seq!['\n'] + rest) =~= seq![strip_cr(l)] + text_lines(rest));
    } else {
        assert(text_lines(l + seq!['\n'] + rest) =~= seq![strip_cr(l)] + text_lines(rest));
    }
    assert(seq![l].drop_last() =~= Seq::<Seq<char>>::empty());
    assert(text_lines(l) =~= (if l.len() == 0 {
        Seq::<Seq<char>>::empty()
    } else {
        seq![l]
    }));
}

/// Fields read from the front: white space between two texts separates
/// their fields, and a run of non-white-space characters is one field (an
/// empty one is no field).
pub proof fn lemma_fields_from_front(w: Seq<char>, c: char, rest: Seq<char>)
    requires
        forall|i: int| 0 <= i < w.len() ==> !is_white_space(#[trigger] w[i]),
        is_white_space(c),
    ensures
        fields(w + seq![c] + rest) == fields(w) + fields(rest),
        fields(w) == if w.len() == 0 {
            Seq::<Seq<char>>::empty()
        } else {
            seq![w]
        },
{
    reveal_with_fuel(Seq::filter, 2);
    assert forall|i: int| 0 <= i < w.len() implies !white()(#[trigger] w[i]) by {}
    lemma_pieces_without_separator(w, white());
    lemma_pieces_at_separator(w, c, rest, white());
    Seq::filter_distributes_over_add(
        pieces(w, white()),
        pieces(rest, white()),
        non_empty(),
    );
    assert(seq![w].drop_last() =~= Seq::<Seq<char>>::empty());
    assert(seq![w].filter(non_empty()) =~= (if w.len() == 0 {
        Seq::<Seq<char>>::empty()
    } else {
        seq![w]
    }));
}

proof fn lemma_trim_start_skips(s: Seq<char>) -> (k: int)
    ensures
        0 <= k <= s.len(),
        trim_start(s) == s.skip(k),
        forall|i: int| 0 <= i < k ==> is_white_space(#[trigger] s[i]),
        k < s.len() ==> !is_white_space(s[k]),
    decreases s.len(),
{
    if s.len() > 0 && is_white_space(s[0]) {
        let k1 = lemma_trim_start_skips(s.drop_first());
        assert(s.drop_first().skip(k1) =~= s.skip(k1 + 1));
        assert forall|i: int| 0 <= i < k1 + 1 implies is_white_space(#[trigger] s[i]) by {
            if i > 0 {
                assert(s.drop_first()[i - 1] == s[i]);
            }
        }
        if k1 + 1 < s.len() {
            assert(s.drop_first()[k1] == s[k1 + 1]);
        }
        k1 + 1
    } else {
        assert(s.skip(0) =~= s);
        0
    }
}

proof fn lemma_trim_end_takes(s: Seq<char>) -> (m: int)
    ensures
        0 <= m <= s.len(),
        trim_end(s) == s.take(m),
        forall|i: int| m <= i < s.len() ==> is_white_space(#[trigger] s[i]),
        m > 0 ==> !is_white_space(s[m - 1]),
    decreases s.len(),
{
    if s.len() > 0 && is_white_space(s.last()) {
        let m1 = lemma_trim_end_takes(s.drop_last());
        assert(s.drop_last().take(m1) =~= s.take(m1));
        assert forall|i: int| m1 <= i < s.len() implies is_white_space(#[trigger] s[i]) by {
            if i < s.len() - 1 {
                assert(s.drop_last()[i] == s[i]);
            }
        }
        if m1 > 0 {
            assert(s.drop_last()[m1 - 1] == s[m1 - 1]);
        }
        m1
    } else {
        assert(s.take(s.len() as int) =~= s);
        s.len() as int
    }
}

/// Trimming keeps the middle of a text: it removes a run of white space at
/// the start and one at the end, and what remains, unless empty, begins and
/// ends with a character that is not white space.
pub proof fn lemma_trimmed_shape(s: Seq<char>)
    ensures
        exists|a: int, b: int|
            0 <= a <= b <= s.len() && #[trigger] s.subrange(a, b) == trimmed(s) && (forall|i: int|
                0 <= i < a ==> is_white_space(#[trigger] s[i])) && (forall|i: int|
                b <= i < s.len() ==> is_white_space(#[trigger] s[i])) && (a < b ==> (
            !is_white_space(s[a]) && !is_white_space(s[b - 1]))),
{
    let k = lemma_trim_start_skips(s);
    let u = s.skip(k);
    let m = lemma_trim_end_takes(u);
    assert(trimmed(s) == u.take(m));
    assert(u.take(m) =~= s.subrange(k, k + m));
    assert forall|i: int| k + m <= i < s.len() implies is_white_space(#[trigger] s[i]) by {
        assert(u[i - k] == s[i]);
    }
    if m > 0 {
        assert(u[0] == s[k]);
        assert(u[m - 1] == s[k + m - 1]);
    }
    assert(0 <= k <= k + m <= s.len() && s.subrange(k, k + m) == trimmed(s));
}

} // verus!

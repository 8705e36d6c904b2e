//! Character-level text helpers: line normalization and substring search.
use vstd::prelude::*;

verus! {

/// Relies on `str::chars`, gathered into a `Vec`: the characters of `s`, in order.
#[verifier::external_body]
pub(crate) fn chars_of(s: &str) -> (r: Vec<char>)
    ensures
        r@ == s@,
{
    s.chars().collect()
}

/// Relies on `String`'s `FromIterator<&char>`: a string holding exactly the given characters.
#[verifier::external_body]
pub(crate) fn string_from_chars(v: &[char]) -> (r: String)
    ensures
        r@ == v@,
{
    v.iter().collect()
}

/// The characters that carry Unicode's `White_Space` property, which is what
/// `char::is_whitespace` and `str::trim` go by.
pub open spec fn is_white_space(c: char) -> bool {
    let u = c as u32;
    (9 <= u <= 13) || u == 32 || u == 0x85 || u == 0xa0 || u == 0x1680 || (0x2000 <= u
        <= 0x200a) || u == 0x2028 || u == 0x2029 || u == 0x202f || u == 0x205f || u == 0x3000
}

pub fn white_space(c: char) -> (r: bool)
    ensures
        r == is_white_space(c),
{
    let u = c as u32;
    (9 <= u && u <= 13) || u == 32 || u == 0x85 || u == 0xa0 || u == 0x1680 || (0x2000 <= u && u
        <= 0x200a) || u == 0x2028 || u == 0x2029 || u == 0x202f || u == 0x205f || u == 0x3000
}

/// `s` with leading white space removed.
pub open spec fn trim_start(s: Seq<char>) -> Seq<char>
    decreases s.len(),
{
    if s.len() > 0 && is_white_space(s[0]) {
        trim_start(s.drop_first())
    } else {
        s
    }
}

/// `s` with trailing white space removed.
pub open spec fn trim_end(s: Seq<char>) -> Seq<char>
    decreases s.len(),
{
    if s.len() > 0 && is_white_space(s.last()) {
        trim_end(s.drop_last())
    } else {
        s
    }
}

/// `s` with white space removed at both ends.
pub open spec fn trim(s: Seq<char>) -> Seq<char> {
    trim_start(trim_end(s))
}

/// The pieces of `s` between newline characters; always at least one piece.
pub open spec fn split_lines(s: Seq<char>) -> Seq<Seq<char>>
    decreases s.len(),
{
    if s.len() == 0 {
        seq![Seq::empty()]
    } else {
        let r = split_lines(s.drop_last());
        if s.last() == '\n' {
            r.push(Seq::empty())
        } else {
            r.update(r.len() - 1, r.last().push(s.last()))
        }
    }
}

/// Each line trimmed, with the lines that trim to nothing left out.
pub open spec fn kept_lines(ls: Seq<Seq<char>>) -> Seq<Seq<char>>
    decreases ls.len(),
{
    if ls.len() == 0 {
        Seq::empty()
    } else {
        let r = kept_lines(ls.drop_last());
        let t = trim(ls.last());
        if t.len() > 0 {
            r.push(t)
        } else {
            r
        }
    }
}

/// The lines joined with a newline between each two.
pub open spec fn join_lines(ls: Seq<Seq<char>>) -> Seq<char>
    decreases ls.len(),
{
    if ls.len() == 0 {
        Seq::empty()
    } else if ls.len() == 1 {
        ls[0]
    } else {
        join_lines(ls.drop_last()) + seq!['\n'] + ls.last()
    }
}

/// Normalized text: every line trimmed, blank lines dropped, newline-joined.
pub open spec fn normalized(s: Seq<char>) -> Seq<char> {
    join_lines(kept_lines(split_lines(s)))
}

/// Whether `needle` occurs as a contiguous piece of `hay`.
pub open spec fn occurs_in(needle: Seq<char>, hay: Seq<char>) -> bool {
    exists|i: int| 0 <= i <= hay.len() - needle.len() && #[trigger] hay.subrange(i, i + needle.len()) == needle
}

pub open spec fn has_newline(s: Seq<char>) -> bool {
    exists|k: int| 0 <= k < s.len() && s[k] == '\n'
}

proof fn lemma_split_lines_nonempty(s: Seq<char>)
    ensures
        split_lines(s).len() >= 1,
    decreases s.len(),
{
    if s.len() > 0 {
        lemma_split_lines_nonempty(s.drop_last());
    }
}

proof fn lemma_trim_end_prefix(s: Seq<char>, b: int)
    requires
        0 <= b <= s.len(),
        forall|k: int| b <= k < s.len() ==> is_white_space(s[k]),
        b == 0 || !is_white_space(s[b - 1]),
    ensures
        trim_end(s) == s.subrange(0, b),
    decreases s.len(),
{
    if b < s.len() {
        lemma_trim_end_prefix(s.drop_last(), b);
        assert(s.drop_last().subrange(0, b) == s.subrange(0, b));
    } else {
        assert(s.subrange(0, b) == s);
    }
}

proof fn lemma_trim_start_suffix(s: Seq<char>, a: int)
    requires
        0 <= a <= s.len(),
        forall|k: int| 0 <= k < a ==> is_white_space(s[k]),
        a == s.len() || !is_white_space(s[a]),
    ensures
        trim_start(s) == s.subrange(a, s.len() as int),
    decreases s.len(),
{
    if a > 0 {
        lemma_trim_start_suffix(s.drop_first(), a - 1);
        assert(s.drop_first().subrange(a - 1, s.len() - 1) == s.subrange(a, s.len() as int));
    } else {
        assert(s.subrange(0, s.len() as int) == s);
    }
}

proof fn lemma_trim_start_is_suffix(s: Seq<char>)
    ensures
        exists|a: int| 0 <= a <= s.len() && trim_start(s) == #[trigger] s.subrange(a, s.len() as int),
        trim_start(s).len() > 0 ==> !is_white_space(trim_start(s)[0]),
    decreases s.len(),
{
    if s.len() > 0 && is_white_space(s[0]) {
        lemma_trim_start_is_suffix(s.drop_first());
        let a = choose|a: int|
            0 <= a <= s.len() - 1 && trim_start(s.drop_first()) == #[trigger] s.drop_first().subrange(
                a,
                s.len() - 1,
            );
        assert(s.drop_first().subrange(a, s.len() - 1) == s.subrange(a + 1, s.len() as int));
    } else {
        assert(s.subrange(0, s.len() as int) == s);
    }
}

proof fn lemma_trim_end_is_prefix(s: Seq<char>)
    ensures
        exists|b: int| 0 <= b <= s.len() && trim_end(s) == #[trigger] s.subrange(0, b),
        trim_end(s).len() > 0 ==> !is_white_space(trim_end(s).last()),
    decreases s.len(),
{
    if s.len() > 0 && is_white_space(s.last()) {
        lemma_trim_end_is_prefix(s.drop_last());
        let b = choose|b: int|
            0 <= b <= s.len() - 1 && trim_end(s.drop_last()) == #[trigger] s.drop_last().subrange(0, b);
        assert(s.drop_last().subrange(0, b) == s.subrange(0, b));
    } else {
        assert(s.subrange(0, s.len() as int) == s);
    }
}

/// A trimmed line has no white space at either end, is trimmed again to itself,
/// and holds no newline if the line did not.
proof fn lemma_trim_facts(s: Seq<char>)
    ensures
        trim(trim(s)) == trim(s),
        !has_newline(s) ==> !has_newline(trim(s)),
{
    let e = trim_end(s);
    let t = trim(s);
    lemma_trim_end_is_prefix(s);
    lemma_trim_start_is_suffix(e);
    let b = choose|b: int| 0 <= b <= s.len() && e == #[trigger] s.subrange(0, b);
    let a = choose|a: int| 0 <= a <= e.len() && t == #[trigger] e.subrange(a, e.len() as int);
    assert(t == s.subrange(a, b));
    if t.len() > 0 {
        assert(t.last() == e.last());
        assert(trim_end(t) == t);
        assert(trim_start(t) == t);
    } else {
        assert(trim(t) == t);
    }
    if !has_newline(s) {
        assert forall|k: int| 0 <= k < t.len() implies t[k] != '\n' by {
            assert(t[k] == s[a + k]);
        }
    }
}

proof fn lemma_split_lines_no_newline(s: Seq<char>)
    ensures
        forall|i: int| 0 <= i < split_lines(s).len() ==> !has_newline(#[trigger] split_lines(s)[i]),
    decreases s.len(),
{
    if s.len() > 0 {
        lemma_split_lines_no_newline(s.drop_last());
        lemma_split_lines_nonempty(s.drop_last());
        let r = split_lines(s.drop_last());
        if s.last() != '\n' {
            let l = r.last().push(s.last());
            assert(!has_newline(r[r.len() - 1]));
            assert forall|k: int| 0 <= k < l.len() implies l[k] != '\n' by {
                if k < l.len() - 1 {
                    assert(l[k] == r[r.len() - 1][k]);
                }
            }
            assert(split_lines(s) == r.update(r.len() - 1, l));
        } else {
            assert(!has_newline(Seq::<char>::empty()));
        }
    }
}

/// Appending newline-free text extends the last line only.
proof fn lemma_split_lines_extend(a: Seq<char>, b: Seq<char>)
    requires
        !has_newline(b),
    ensures
        split_lines(a + b) == split_lines(a).update(
            split_lines(a).len() - 1,
            split_lines(a).last() + b,
        ),
    decreases b.len(),
{
    lemma_split_lines_nonempty(a);
    let r = split_lines(a);
    if b.len() == 0 {
        assert(a + b == a);
        assert(r.last() + b == r.last());
        assert(r.update(r.len() - 1, r.last()) == r);
    } else {
        let b0 = b.drop_last();
        assert(!has_newline(b0)) by {
            assert forall|k: int| 0 <= k < b0.len() implies b0[k] != '\n' by {
                assert(b0[k] == b[k]);
            }
        }
        lemma_split_lines_extend(a, b0);
        assert((a + b).drop_last() == a + b0);
        assert((a + b).last() == b.last());
        assert(b.last() != '\n');
        assert((r.last() + b0).push(b.last()) == r.last() + b);
    }
}

proof fn lemma_split_join(ls: Seq<Seq<char>>)
    requires
        ls.len() > 0,
        forall|i: int| 0 <= i < ls.len() ==> !has_newline(#[trigger] ls[i]),
    ensures
        split_lines(join_lines(ls)) == ls,
    decreases ls.len(),
{
    if ls.len() == 1 {
        lemma_split_lines_extend(Seq::empty(), ls[0]);
        assert(Seq::<char>::empty() + ls[0] == ls[0]);
        assert(split_lines(Seq::empty()) == seq![Seq::<char>::empty()]);
        assert(seq![Seq::<char>::empty()].update(0, Seq::<char>::empty() + ls[0]) == ls);
    } else {
        let front = ls.drop_last();
        assert forall|i: int| 0 <= i < front.len() implies !has_newline(#[trigger] front[i]) by {
            assert(front[i] == ls[i]);
        }
        lemma_split_join(front);
        let x = join_lines(front) + seq!['\n'];
        assert(split_lines(x) == front.push(Seq::empty())) by {
            assert(x.drop_last() == join_lines(front));
        }
        assert(!has_newline(ls[ls.len() - 1]));
        lemma_split_lines_extend(x, ls.last());
        assert(x + ls.last() == join_lines(ls));
        assert(Seq::<char>::empty() + ls.last() == ls.last());
        assert(front.push(Seq::empty()).update(front.len() as int, Seq::<char>::empty() + ls.last())
            == ls);
    }
}

proof fn lemma_kept_lines_shape(ls: Seq<Seq<char>>)
    requires
        forall|i: int| 0 <= i < ls.len() ==> !has_newline(#[trigger] ls[i]),
    ensures
        forall|i: int|
            0 <= i < kept_lines(ls).len() ==> {
                let l = #[trigger] kept_lines(ls)[i];
                l.len() > 0 && trim(l) == l && !has_newline(l)
            },
    decreases ls.len(),
{
    if ls.len() > 0 {
        let front = ls.drop_last();
        assert forall|i: int| 0 <= i < front.len() implies !has_newline(#[trigger] front[i]) by {
            assert(front[i] == ls[i]);
        }
        lemma_kept_lines_shape(front);
        assert(!has_newline(ls[ls.len() - 1]));
        lemma_trim_facts(ls.last());
        let t = trim(ls.last());
        let r = kept_lines(front);
        if t.len() > 0 {
            assert forall|i: int| 0 <= i < r.push(t).len() implies {
                let l = #[trigger] r.push(t)[i];
                l.len() > 0 && trim(l) == l && !has_newline(l)
            } by {
                if i < r.len() {
                    assert(r.push(t)[i] == r[i]);
                }
            }
        }
    }
}

proof fn lemma_kept_lines_fixed(ls: Seq<Seq<char>>)
    requires
        forall|i: int| 0 <= i < ls.len() ==> (#[trigger] ls[i]).len() > 0 && trim(ls[i]) == ls[i],
    ensures
        kept_lines(ls) == ls,
    decreases ls.len(),
{
    if ls.len() > 0 {
        let front = ls.drop_last();
        assert forall|i: int| 0 <= i < front.len() implies (#[trigger] front[i]).len() > 0 && trim(
            front[i],
        ) == front[i] by {
            assert(front[i] == ls[i]);
        }
        lemma_kept_lines_fixed(front);
        assert(ls.len() > 0 && trim(ls[ls.len() - 1]) == ls[ls.len() - 1]);
        assert(front.push(ls.last()) == ls);
    }
}

/// Normalizing text that is already normalized changes nothing.
pub proof fn lemma_normalize_idempotent(s: Seq<char>)
    ensures
        normalized(normalized(s)) == normalized(s),
{
    let ls = split_lines(s);
    lemma_split_lines_no_newline(s);
    let kl = kept_lines(ls);
    lemma_kept_lines_shape(ls);
    let n = join_lines(kl);
    if kl.len() == 0 {
        assert(split_lines(n) == seq![Seq::<char>::empty()]);
        assert(trim_end(Seq::<char>::empty()) == Seq::<char>::empty());
        assert(trim(Seq::<char>::empty()) == Seq::<char>::empty());
        let one = seq![Seq::<char>::empty()];
        assert(one.drop_last() == Seq::<Seq<char>>::empty());
        assert(one.last() == Seq::<char>::empty());
        assert(kept_lines(Seq::<Seq<char>>::empty()) == Seq::<Seq<char>>::empty());
        assert(kept_lines(one) == Seq::<Seq<char>>::empty());
    } else {
        lemma_split_join(kl);
        lemma_kept_lines_fixed(kl);
    }
}

proof fn lemma_kept_lines_nonempty(ls: Seq<Seq<char>>)
    ensures
        forall|i: int| 0 <= i < kept_lines(ls).len() ==> (#[trigger] kept_lines(ls)[i]).len() > 0,
    decreases ls.len(),
{
    if ls.len() > 0 {
        let r = kept_lines(ls.drop_last());
        lemma_kept_lines_nonempty(ls.drop_last());
        let t = trim(ls.last());
        if t.len() > 0 {
            assert forall|i: int| 0 <= i < r.push(t).len() implies (#[trigger] r.push(t)[i]).len()
                > 0 by {
                if i < r.len() {
                    assert(r.push(t)[i] == r[i]);
                }
            }
        }
    }
}

/// Appends to `out`, which joins the lines kept from `done`, the trimmed `line`
/// when it is not blank, so that `out` then joins the lines kept from `done + [line]`.
fn flush_line(out: &mut Vec<char>, line: &Vec<char>, Ghost(done): Ghost<Seq<Seq<char>>>)
    requires
        old(out)@ == join_lines(kept_lines(done)),
    ensures
        final(out)@ == join_lines(kept_lines(done.push(line@))),
{
    let mut b: usize = line.len();
    while b > 0 && white_space(line[b - 1])
        invariant
            0 <= b <= line.len(),
            forall|k: int| b <= k < line.len() ==> is_white_space(line@[k]),
        decreases b,
    {
        b = b - 1;
    }
    let mut a: usize = 0;
    while a < b && white_space(line[a])
        invariant
            0 <= a <= b <= line.len(),
            forall|k: int| 0 <= k < a ==> is_white_space(line@[k]),
        decreases b - a,
    {
        a = a + 1;
    }
    let ghost l = line@;
    proof {
        lemma_trim_end_prefix(l, b as int);
        lemma_trim_start_suffix(l.subrange(0, b as int), a as int);
        assert(l.subrange(0, b as int).subrange(a as int, b as int) == l.subrange(a as int, b as int));
        assert(done.push(l).drop_last() == done);
        lemma_kept_lines_nonempty(done);
    }
    let ghost k = kept_lines(done);
    if a < b {
        proof {
            if k.len() > 0 {
                assert(k[k.len() - 1].len() > 0);
            }
        }
        if out.len() > 0 {
            out.push('\n');
        }
        let ghost start = out@;
        let mut j: usize = a;
        while j < b
            invariant
                a <= j <= b <= line.len(),
                out@ == start + line@.subrange(a as int, j as int),
            decreases b - j,
        {
            out.push(line[j]);
            j = j + 1;
            assert(out@ == start + line@.subrange(a as int, j as int));
        }
        proof {
            let t = l.subrange(a as int, b as int);
            assert(k.push(t).drop_last() == k);
            if k.len() == 0 {
                assert(start == Seq::<char>::empty());
                assert(out@ == t);
            }
        }
    }
}

/// The text with every line trimmed and blank lines dropped, lines joined by newlines.
pub fn normalize(content: &str) -> (r: String)
    ensures
        r@ == normalized(content@),
{
    let cs = chars_of(content);
    let mut out: Vec<char> = Vec::new();
    let mut line: Vec<char> = Vec::new();
    let mut i: usize = 0;
    proof {
        assert(cs@.subrange(0, 0) == Seq::<char>::empty());
    }
    while i < cs.len()
        invariant
            0 <= i <= cs.len(),
            cs@ == content@,
            split_lines(cs@.subrange(0, i as int)).len() >= 1,
            line@ == split_lines(cs@.subrange(0, i as int)).last(),
            out@ == join_lines(kept_lines(split_lines(cs@.subrange(0, i as int)).drop_last())),
        decreases cs.len() - i,
    {
        let ghost ls = split_lines(cs@.subrange(0, i as int));
        let c = cs[i];
        proof {
            assert(cs@.subrange(0, i + 1).drop_last() == cs@.subrange(0, i as int));
        }
        if c == '\n' {
            flush_line(&mut out, &line, Ghost(ls.drop_last()));
            proof {
                assert(ls.drop_last().push(ls.last()) == ls);
                assert(ls.push(Seq::empty()).drop_last() == ls);
            }
            line = Vec::new();
        } else {
            line.push(c);
            proof {
                let ls2 = ls.update(ls.len() - 1, ls.last().push(c));
                assert(ls2.drop_last() == ls.drop_last());
            }
        }
        i = i + 1;
    }
    proof {
        let ls = split_lines(cs@.subrange(0, i as int));
        assert(cs@.subrange(0, i as int) == cs@);
        assert(ls.drop_last().push(ls.last()) == ls);
    }
    flush_line(&mut out, &line, Ghost(split_lines(cs@).drop_last()));
    string_from_chars(out.as_slice())
}

/// Whether `needle` occurs as a contiguous piece of `hay`.
pub fn occurs(needle: &[char], hay: &[char]) -> (r: bool)
    ensures
        r == occurs_in(needle@, hay@),
{
    if needle.len() > hay.len() {
        return false;
    }
    let n = needle.len();
    let last = hay.len() - n;
    let mut i: usize = 0;
    while i <= last
        invariant
            n == needle@.len(),
            last == hay@.len() - n,
            0 <= i <= last + 1,
            forall|p: int| 0 <= p < i ==> #[trigger] hay@.subrange(p, p + n) != needle@,
        decreases last + 1 - i,
    {
        let mut j: usize = 0;
        while j < n && hay[i + j] == needle[j]
            invariant
                hay@.len() == hay.len(),
                0 <= j <= n,
                i <= last,
                i + n <= hay@.len(),
                n == needle@.len(),
                last == hay@.len() - n,
                forall|q: int| 0 <= q < j ==> hay@[i + q] == needle@[q],
            decreases n - j,
        {
            j = j + 1;
        }
        if j == n {
            assert(hay@.subrange(i as int, i + n) == needle@);
            return true;
        }
        assert(hay@.subrange(i as int, i + n)[j as int] != needle@[j as int]);
        i = i + 1;
    }
    false
}

/// Appends `src[from..to]` to `out`.
pub(crate) fn push_range(out: &mut Vec<char>, src: &[char], from: usize, to: usize)
    requires
        from <= to <= src@.len(),
    ensures
        final(out)@ == old(out)@ + src@.subrange(from as int, to as int),
{
    let ghost start = out@;
    let mut j: usize = from;
    while j < to
        invariant
            from <= j <= to <= src@.len(),
            out@ == start + src@.subrange(from as int, j as int),
        decreases to - j,
    {
        out.push(src[j]);
        j = j + 1;
        assert(out@ == start + src@.subrange(from as int, j as int));
    }
}

} // verus!

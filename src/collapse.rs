//! Collapsing of the top-level brace blocks that do not concern the target.
use vstd::prelude::*;
use vstd::slice::slice_subrange;
use crate::pattern::Pattern;
use crate::pattern::is_match;
use crate::pattern::matches_in;
use crate::text::chars_of;
use crate::text::push_range;
use crate::text::string_from_chars;

verus! {

/// What a collapsed block is replaced by.
pub open spec fn placeholder() -> Seq<char> {
    seq!['{', '.', '.', '.', '}']
}

/// The state of the left-to-right scan after some prefix of the text:
/// the brace depth, where the pending (not yet emitted) text starts, whether
/// the next closed block is kept for following the definition, and the output so far.
pub struct ScanState {
    pub depth: int,
    pub pending: int,
    pub keep_next: bool,
    pub out: Seq<char>,
}

/// One character of the scan. A `}` that brings the depth back to 0 closes
/// a top-level block, the text from `pending` through it; the block is emitted
/// as it is when it follows the definition or the pattern matches in it, and
/// as the placeholder otherwise. A character read at depth 0 outside any block
/// is emitted as it is; when it stands at the definition's position, the next
/// block to close is kept.
pub open spec fn scan_step(
    t: Seq<char>,
    pat: Seq<char>,
    def: Option<usize>,
    s: ScanState,
    i: int,
) -> ScanState {
    let c = t[i];
    let d = if c == '{' {
        s.depth + 1
    } else if c == '}' {
        s.depth - 1
    } else {
        s.depth
    };
    let closes = c == '}' && d == 0;
    let block = t.subrange(s.pending, i + 1);
    let out1 = if !closes {
        s.out
    } else if s.keep_next || matches_in(pat, block) {
        s.out + block
    } else {
        s.out + placeholder()
    };
    let pending1 = if closes {
        i + 1
    } else {
        s.pending
    };
    let keep1 = if closes {
        false
    } else {
        s.keep_next
    };
    if d == 0 && i >= pending1 {
        ScanState {
            depth: d,
            pending: i + 1,
            keep_next: keep1 || (def matches Some(p) && p as int == i),
            out: out1.push(c),
        }
    } else {
        ScanState { depth: d, pending: pending1, keep_next: keep1, out: out1 }
    }
}

/// The scan after the first `n` characters of `t`.
pub open spec fn scan(t: Seq<char>, pat: Seq<char>, def: Option<usize>, n: nat) -> ScanState
    decreases n,
{
    if n == 0 {
        ScanState { depth: 0, pending: 0, keep_next: false, out: Seq::empty() }
    } else {
        scan_step(t, pat, def, scan(t, pat, def, (n - 1) as nat), n - 1)
    }
}

/// The collapsed text: the scan's output followed by whatever is still
/// pending at the end (an unterminated block is copied as it is).
pub open spec fn collapsed(t: Seq<char>, pat: Seq<char>, def: Option<usize>) -> Seq<char> {
    let s = scan(t, pat, def, t.len());
    s.out + t.subrange(s.pending, t.len() as int)
}

/// Replaces each top-level block of `content` by `{...}` unless it is the
/// block that follows the definition at character position `def_pos`, or the
/// caller pattern matches within it. Text outside blocks is kept.
pub fn replace_blocks_not_calling_target_function(
    content: &str,
    def_pos: Option<usize>,
    target_function_caller_pattern: &Pattern,
) -> (r: String)
    ensures
        r@ == collapsed(content@, target_function_caller_pattern@, def_pos),
{
    let ghost t = content@;
    let ghost pat = target_function_caller_pattern@;
    let cs = chars_of(content);
    let mut depth: i128 = 0;
    let mut pending: usize = 0;
    let mut keep_next = false;
    let mut out: Vec<char> = Vec::new();
    let mut i: usize = 0;
    while i < cs.len()
        invariant
            cs@ == t,
            t == content@,
            pat == target_function_caller_pattern@,
            0 <= i <= cs.len(),
            -(i as int) <= depth <= i,
            pending <= i,
            scan(t, pat, def_pos, i as nat) == (ScanState {
                depth: depth as int,
                pending: pending as int,
                keep_next,
                out: out@,
            }),
        decreases cs.len() - i,
    {
        let c = cs[i];
        if c == '{' {
            depth = depth + 1;
        } else if c == '}' {
            depth = depth - 1;
            if depth == 0 {
                let block = string_from_chars(slice_subrange(cs.as_slice(), pending, i + 1));
                if keep_next || is_match(target_function_caller_pattern, block.as_str()) {
                    push_range(&mut out, cs.as_slice(), pending, i + 1);
                    keep_next = false;
                } else {
                    out.push('{');
                    out.push('.');
                    out.push('.');
                    out.push('.');
                    out.push('}');
                }
                pending = i + 1;
            }
        }
        if depth == 0 && i >= pending {
            out.push(c);
            pending = i + 1;
            if def_pos == Some(i) {
                keep_next = true;
            }
        }
        i = i + 1;
        proof {
            let s = scan_step(t, pat, def_pos, scan(t, pat, def_pos, (i - 1) as nat), i - 1);
            assert(scan(t, pat, def_pos, i as nat) == s);
            assert(s.depth == depth as int);
            assert(s.pending == pending as int);
            assert(s.keep_next == keep_next);
            assert(s.out == out@);
        }
    }
    push_range(&mut out, cs.as_slice(), pending, cs.len());
    string_from_chars(out.as_slice())
}

/// The change of brace depth that one character makes.
pub open spec fn brace_delta(c: char) -> int {
    if c == '{' {
        1
    } else if c == '}' {
        -1
    } else {
        0
    }
}

/// Number of `{` minus number of `}` in a text.
pub open spec fn brace_balance(s: Seq<char>) -> int
    decreases s.len(),
{
    if s.len() == 0 {
        0
    } else {
        brace_balance(s.drop_last()) + brace_delta(s.last())
    }
}

/// No prefix of `t[0..k]` closes more braces than it opened.
pub open spec fn never_below_zero(t: Seq<char>, k: int) -> bool {
    forall|j: int| 0 <= j <= k ==> brace_balance(#[trigger] t.subrange(0, j)) >= 0
}

/// A text whose braces all pair up.
pub open spec fn balanced(t: Seq<char>) -> bool {
    never_below_zero(t, t.len() as int) && brace_balance(t) == 0
}

/// A top-level block: a `{` and everything through the `}` that first brings
/// the depth back to 0.
pub open spec fn is_block(b: Seq<char>) -> bool {
    &&& b.len() >= 2
    &&& b[0] == '{'
    &&& brace_balance(b) == 0
    &&& forall|k: int| 1 <= k < b.len() ==> brace_balance(#[trigger] b.subrange(0, k)) >= 1
}

/// The `}` at `j` closes a top-level block.
pub open spec fn closes_at(t: Seq<char>, j: int) -> bool {
    t[j] == '}' && brace_balance(t.subrange(0, j + 1)) == 0
}

/// The definition position lies before `k`, outside every block, and no
/// top-level block closes between it and `k`.
pub open spec fn follows_definition(t: Seq<char>, def: Option<usize>, k: int) -> bool {
    match def {
        Some(p) => {
            &&& p < k
            &&& brace_balance(t.subrange(0, p as int)) == 0
            &&& t[p as int] != '{'
            &&& t[p as int] != '}'
            &&& forall|j: int| p < j < k ==> !#[trigger] closes_at(t, j)
        },
        None => false,
    }
}

/// How a top-level block at `s` reads in the output.
pub open spec fn rendered_block(
    t: Seq<char>,
    pat: Seq<char>,
    def: Option<usize>,
    s: int,
    b: Seq<char>,
) -> Seq<char> {
    if follows_definition(t, def, s) || matches_in(pat, b) {
        b
    } else {
        placeholder()
    }
}

proof fn lemma_balance_step(t: Seq<char>, k: int)
    requires
        0 <= k < t.len(),
    ensures
        brace_balance(t.subrange(0, k + 1)) == brace_balance(t.subrange(0, k)) + brace_delta(t[k]),
{
    assert(t.subrange(0, k + 1).drop_last() == t.subrange(0, k));
}

proof fn lemma_scan_unfold(t: Seq<char>, pat: Seq<char>, def: Option<usize>, k: int)
    requires
        0 <= k,
    ensures
        scan(t, pat, def, (k + 1) as nat) == scan_step(t, pat, def, scan(t, pat, def, k as nat), k),
{
}

/// Along a text that never goes below depth 0, the scan's depth is the brace
/// balance, nothing is pending at depth 0, and the keep flag is set exactly
/// when the definition came before with no block closed since.
proof fn lemma_scan_tracks(t: Seq<char>, pat: Seq<char>, def: Option<usize>, k: int)
    requires
        0 <= k <= t.len(),
        never_below_zero(t, k),
    ensures
        scan(t, pat, def, k as nat).depth == brace_balance(t.subrange(0, k)),
        scan(t, pat, def, k as nat).depth == 0 ==> scan(t, pat, def, k as nat).pending == k,
        scan(t, pat, def, k as nat).pending <= k,
        scan(t, pat, def, k as nat).keep_next == follows_definition(t, def, k),
    decreases k,
{
    if k == 0 {
        assert(t.subrange(0, 0) == Seq::<char>::empty());
    } else {
        let i = k - 1;
        lemma_scan_tracks(t, pat, def, i);
        lemma_balance_step(t, i);
        lemma_scan_unfold(t, pat, def, i);
        assert(brace_balance(t.subrange(0, k)) >= 0);
        assert(brace_balance(t.subrange(0, i)) >= 0);
        let a = scan(t, pat, def, i as nat);
        let z = scan(t, pat, def, k as nat);
        let closes = t[i] == '}' && z.depth == 0;
        assert(closes == closes_at(t, i));
        match def {
            Some(p) => {
                if (p as int) < i {
                                        if follows_definition(t, def, k) {
                        assert forall|j: int| p < j < i implies !#[trigger] closes_at(t, j) by {
                            assert(p < j < k);
                        }
                        assert(follows_definition(t, def, i));
                        assert(!closes_at(t, i));
                    }
                    if follows_definition(t, def, i) && !closes_at(t, i) {
                        assert forall|j: int| p < j < k implies !#[trigger] closes_at(t, j) by {}
                        assert(follows_definition(t, def, k));
                    }
                    assert(z.keep_next == follows_definition(t, def, k));
                } else if p as int == i {
                    assert(!follows_definition(t, def, i));
                    assert(z.keep_next == follows_definition(t, def, k));
                } else {
                                        assert(!follows_definition(t, def, i));
                    assert(!follows_definition(t, def, k));
                }
            },
            None => {},
        }
    }
}

proof fn lemma_inside_block(t: Seq<char>, pat: Seq<char>, def: Option<usize>, s: int, e: int, k: int)
    requires
        0 <= s < k < e <= t.len(),
        is_block(t.subrange(s, e)),
        scan(t, pat, def, s as nat).depth == 0,
        scan(t, pat, def, s as nat).pending == s,
    ensures
        ({
            let a = scan(t, pat, def, s as nat);
            scan(t, pat, def, k as nat) == (ScanState {
                depth: brace_balance(t.subrange(s, k)),
                pending: s,
                keep_next: a.keep_next,
                out: a.out,
            })
        }),
    decreases k,
{
    let b = t.subrange(s, e);
    lemma_scan_unfold(t, pat, def, k - 1);
    lemma_balance_step(t.subrange(s, e), k - 1 - s);
    assert(b.subrange(0, k - s) == t.subrange(s, k));
    assert(b.subrange(0, k - 1 - s) == t.subrange(s, k - 1));
    assert(b[k - 1 - s] == t[k - 1]);
    if k == s + 1 {
        assert(t.subrange(s, k - 1) == Seq::<char>::empty());
    } else {
        lemma_inside_block(t, pat, def, s, e, k - 1);
    }
    assert(brace_balance(b.subrange(0, k - s)) >= 1);
}

proof fn lemma_out_grows(t: Seq<char>, pat: Seq<char>, def: Option<usize>, k: int, m: int)
    requires
        0 <= k <= m <= t.len(),
    ensures
        scan(t, pat, def, k as nat).out.len() <= scan(t, pat, def, m as nat).out.len(),
        scan(t, pat, def, m as nat).out.subrange(0, scan(t, pat, def, k as nat).out.len() as int)
            == scan(t, pat, def, k as nat).out,
    decreases m - k,
{
    if k < m {
        lemma_out_grows(t, pat, def, k, m - 1);
        lemma_scan_unfold(t, pat, def, m - 1);
        let x = scan(t, pat, def, k as nat).out;
        let y = scan(t, pat, def, (m - 1) as nat).out;
        let z = scan(t, pat, def, m as nat).out;
        assert(z.subrange(0, y.len() as int) == y);
        assert(z.subrange(0, x.len() as int) == y.subrange(0, x.len() as int));
    } else {
        assert(scan(t, pat, def, m as nat).out.subrange(0, scan(t, pat, def, m as nat).out.len() as int)
            == scan(t, pat, def, m as nat).out);
    }
}

/// Whatever the scan has put out after `k` characters begins the collapsed text.
proof fn lemma_out_prefix(t: Seq<char>, pat: Seq<char>, def: Option<usize>, k: int)
    requires
        0 <= k <= t.len(),
    ensures
        scan(t, pat, def, k as nat).out.len() <= collapsed(t, pat, def).len(),
        collapsed(t, pat, def).subrange(0, scan(t, pat, def, k as nat).out.len() as int) == scan(
            t,
            pat,
            def,
            k as nat,
        ).out,
{
    lemma_out_grows(t, pat, def, k, t.len() as int);
    let x = scan(t, pat, def, k as nat).out;
    let s = scan(t, pat, def, t.len());
    assert(collapsed(t, pat, def).subrange(0, x.len() as int) == s.out.subrange(0, x.len() as int));
}

/// Keep rule: a top-level block is copied as it is when it is the first block
/// after the definition, or when the caller pattern matches within it;
/// otherwise it becomes the placeholder. Either way it stands in the output
/// right after what the text before it produced.
pub proof fn lemma_block_kept_or_collapsed(
    t: Seq<char>,
    pat: Seq<char>,
    def: Option<usize>,
    s: int,
    e: int,
)
    requires
        0 <= s < e <= t.len(),
        never_below_zero(t, s),
        brace_balance(t.subrange(0, s)) == 0,
        is_block(t.subrange(s, e)),
    ensures
        ({
            let o = scan(t, pat, def, s as nat).out;
            let r = rendered_block(t, pat, def, s, t.subrange(s, e));
            &&& scan(t, pat, def, e as nat).out == o + r
            &&& scan(t, pat, def, e as nat).depth == 0
            &&& scan(t, pat, def, e as nat).pending == e
            &&& collapsed(t, pat, def).subrange(o.len() as int, (o.len() + r.len()) as int) == r
        }),
{
    lemma_scan_tracks(t, pat, def, s);
    let b = t.subrange(s, e);
    let a = scan(t, pat, def, s as nat);
    lemma_scan_unfold(t, pat, def, e - 1);
    if e - 1 > s {
        lemma_inside_block(t, pat, def, s, e, e - 1);
    }
    lemma_balance_step(b, e - 1 - s);
    assert(b.subrange(0, e - s) == b);
    assert(b.subrange(0, e - 1 - s) == t.subrange(s, e - 1));
    if e - 1 == s {
        assert(t.subrange(s, e - 1) == Seq::<char>::empty());
    }
    assert(brace_balance(b.subrange(0, e - 1 - s)) >= 1);
    assert(b[e - 1 - s] == t[e - 1]);
    let z = scan(t, pat, def, e as nat);
    lemma_out_prefix(t, pat, def, e);
    let r = rendered_block(t, pat, def, s, b);
    assert(z.out.subrange(0, ((a.out.len() + r.len()) as int) as int) == z.out);
    assert(collapsed(t, pat, def).subrange(a.out.len() as int, (a.out.len() + r.len()) as int) == z.out.subrange(
        a.out.len() as int,
        (a.out.len() + r.len()) as int,
    ));
    assert(z.out.subrange(a.out.len() as int, (a.out.len() + r.len()) as int) == r);
}

/// Outside every block, a character is copied as it is, at the place where
/// the text before it ends in the output.
pub proof fn lemma_outside_char_verbatim(t: Seq<char>, pat: Seq<char>, def: Option<usize>, i: int)
    requires
        0 <= i < t.len(),
        never_below_zero(t, i),
        brace_balance(t.subrange(0, i)) == 0,
        t[i] != '{',
        t[i] != '}',
    ensures
        scan(t, pat, def, (i + 1) as nat).out == scan(t, pat, def, i as nat).out.push(t[i]),
        collapsed(t, pat, def)[scan(t, pat, def, i as nat).out.len() as int] == t[i],
{
    lemma_scan_tracks(t, pat, def, i);
    lemma_scan_unfold(t, pat, def, i);
    lemma_out_prefix(t, pat, def, i + 1);
    let o = scan(t, pat, def, i as nat).out;
    let z = scan(t, pat, def, (i + 1) as nat).out;
    assert(collapsed(t, pat, def).subrange(0, z.len() as int)[o.len() as int] == z[o.len() as int]);
}

/// With balanced braces nothing is left pending: the collapsed text is
/// exactly what the scan put out, verbatim characters and rendered blocks.
pub proof fn lemma_balanced_no_tail(t: Seq<char>, pat: Seq<char>, def: Option<usize>)
    requires
        balanced(t),
    ensures
        collapsed(t, pat, def) == scan(t, pat, def, t.len()).out,
{
    lemma_scan_tracks(t, pat, def, t.len() as int);
    assert(t.subrange(0, t.len() as int) == t);
    assert(t.subrange(t.len() as int, t.len() as int) == Seq::<char>::empty());
    assert(scan(t, pat, def, t.len()).out + Seq::<char>::empty() == scan(t, pat, def, t.len()).out);
}

/// Where the top-level block that opens at `s` ends (just past its `}`).
pub open spec fn block_end(t: Seq<char>, s: int) -> int {
    choose|e: int| s < e <= t.len() && is_block(t.subrange(s, e))
}

/// The text from `s` on, read as a run of characters outside blocks, each
/// kept as it is, and of top-level blocks, each kept or replaced by the
/// placeholder as `rendered_block` says.
pub open spec fn rendered_from(t: Seq<char>, pat: Seq<char>, def: Option<usize>, s: int) -> Seq<
    char,
>
    decreases t.len() - s,
{
    if s < 0 || s >= t.len() {
        Seq::empty()
    } else if t[s] != '{' {
        seq![t[s]] + rendered_from(t, pat, def, s + 1)
    } else {
        let e = block_end(t, s);
        if s < e <= t.len() {
            rendered_block(t, pat, def, s, t.subrange(s, e)) + rendered_from(t, pat, def, e)
        } else {
            t.subrange(s, t.len() as int)
        }
    }
}

proof fn lemma_balance_split(t: Seq<char>, s: int, k: int)
    requires
        0 <= s <= k <= t.len(),
    ensures
        brace_balance(t.subrange(0, k)) == brace_balance(t.subrange(0, s)) + brace_balance(
            t.subrange(s, k),
        ),
    decreases k - s,
{
    if k == s {
        assert(t.subrange(s, k) == Seq::<char>::empty());
    } else {
        lemma_balance_split(t, s, k - 1);
        lemma_balance_step(t, k - 1);
        assert(t.subrange(s, k).drop_last() == t.subrange(s, k - 1));
        assert(t.subrange(s, k).last() == t[k - 1]);
    }
}

proof fn lemma_block_exists(t: Seq<char>, s: int, k: int)
    requires
        balanced(t),
        0 <= s < k <= t.len(),
        brace_balance(t.subrange(0, s)) == 0,
        forall|j: int| s < j <= k ==> brace_balance(#[trigger] t.subrange(0, j)) >= 1,
    ensures
        exists|e: int| s < e <= t.len() && is_block(#[trigger] t.subrange(s, e)),
    decreases t.len() - k,
{
    if k == t.len() {
        assert(t.subrange(0, k) == t);
    } else {
        lemma_balance_step(t, k);
        assert(brace_balance(t.subrange(0, k + 1)) >= 0);
        if brace_balance(t.subrange(0, k + 1)) == 0 {
            let e = k + 1;
            let b = t.subrange(s, e);
            lemma_balance_step(t, s);
            assert(brace_balance(t.subrange(0, s + 1)) >= 1);
            assert(b[0] == t[s]);
            lemma_balance_split(t, s, e);
            assert forall|m: int| 1 <= m < b.len() implies brace_balance(
                #[trigger] b.subrange(0, m),
            ) >= 1 by {
                assert(b.subrange(0, m) == t.subrange(s, s + m));
                lemma_balance_split(t, s, s + m);
                assert(brace_balance(t.subrange(0, s + m)) >= 1);
            }
            assert(is_block(b));
        } else {
            lemma_block_exists(t, s, k + 1);
        }
    }
}

proof fn lemma_rendered_from(t: Seq<char>, pat: Seq<char>, def: Option<usize>, s: int)
    requires
        balanced(t),
        0 <= s <= t.len(),
        brace_balance(t.subrange(0, s)) == 0,
    ensures
        scan(t, pat, def, t.len()).out == scan(t, pat, def, s as nat).out + rendered_from(
            t,
            pat,
            def,
            s,
        ),
    decreases t.len() - s,
{
    let o = scan(t, pat, def, s as nat).out;
    if s == t.len() {
        assert(o + Seq::<char>::empty() == o);
    } else {
        lemma_balance_step(t, s);
        assert(brace_balance(t.subrange(0, s + 1)) >= 0);
        if t[s] != '{' {
            lemma_outside_char_verbatim(t, pat, def, s);
            lemma_rendered_from(t, pat, def, s + 1);
            assert(o.push(t[s]) + rendered_from(t, pat, def, s + 1) == o + (seq![t[s]]
                + rendered_from(t, pat, def, s + 1)));
        } else {
            lemma_block_exists(t, s, s + 1);
            let e = block_end(t, s);
            lemma_block_kept_or_collapsed(t, pat, def, s, e);
            lemma_balance_split(t, s, e);
            lemma_rendered_from(t, pat, def, e);
            let r = rendered_block(t, pat, def, s, t.subrange(s, e));
            assert((o + r) + rendered_from(t, pat, def, e) == o + (r + rendered_from(
                t,
                pat,
                def,
                e,
            )));
        }
    }
}

/// For text with balanced braces the collapsed text reads, from left to
/// right: every character outside the top-level blocks as it is, and each
/// top-level block either as it is (it follows the definition, or the caller
/// pattern matches in it) or as exactly one placeholder.
pub proof fn lemma_collapse_structure(t: Seq<char>, pat: Seq<char>, def: Option<usize>)
    requires
        balanced(t),
    ensures
        collapsed(t, pat, def) == rendered_from(t, pat, def, 0),
{
    lemma_balanced_no_tail(t, pat, def);
    assert(t.subrange(0, 0) == Seq::<char>::empty());
    lemma_rendered_from(t, pat, def, 0);
    assert(Seq::<char>::empty() + rendered_from(t, pat, def, 0) == rendered_from(t, pat, def, 0));
}

} // verus!

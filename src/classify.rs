//! Ranking of source files by how they relate to the target function.
use vstd::prelude::*;
use crate::collapse::collapsed;
use crate::collapse::replace_blocks_not_calling_target_function;
use crate::pattern::ModulePattern;
use crate::pattern::PatternSet;
use crate::pattern::find_start;
use crate::pattern::first_match;
use crate::pattern::is_match;
use crate::pattern::matches_in;
use crate::text::chars_of;
use crate::text::normalize;
use crate::text::normalized;
use crate::text::occurs;
use crate::text::occurs_in;

verus! {

/// Tier of a file that defines the target within the target's modules.
pub const TIER_DEFINITION: u8 = 0;

/// Tier of a file that calls the target.
pub const TIER_CALLER: u8 = 1;

/// Tier of the project manifest.
pub const TIER_MANIFEST: u8 = 2;

/// Tier of a file that defines a function of the same name in other modules.
pub const TIER_SAME_NAME: u8 = 3;

/// Tier of a file that neither defines nor calls the target.
pub const TIER_UNRELATED: u8 = 4;

/// One ranked file: its tier (lower comes first), its path, its summary, and
/// its full normalized text where the file defines or calls the target.
pub struct FileRecord {
    pub tier: u8,
    pub path: String,
    pub summary: String,
    pub full_body: Option<String>,
}

/// The plain content of a `FileRecord`.
pub struct RecordView {
    pub tier: u8,
    pub path: Seq<char>,
    pub summary: Seq<char>,
    pub full_body: Option<Seq<char>>,
}

pub open spec fn opt_view(o: Option<String>) -> Option<Seq<char>> {
    match o {
        Some(s) => Some(s@),
        None => None,
    }
}

impl View for FileRecord {
    type V = RecordView;

    open spec fn view(&self) -> RecordView {
        RecordView {
            tier: self.tier,
            path: self.path@,
            summary: self.summary@,
            full_body: opt_view(self.full_body),
        }
    }
}

fn copy_opt(o: &Option<String>) -> (r: Option<String>)
    ensures
        opt_view(r) == opt_view(*o),
{
    match o {
        Some(s) => Some(s.clone()),
        None => None,
    }
}

impl FileRecord {
    /// A record with the same content.
    pub fn duplicate(&self) -> (r: FileRecord)
        ensures
            r@ == self@,
    {
        FileRecord {
            tier: self.tier,
            path: self.path.clone(),
            summary: self.summary.clone(),
            full_body: copy_opt(&self.full_body),
        }
    }
}

/// Every module segment is declared in the text or named in the path.
pub open spec fn modules_match(mods: Seq<ModulePattern>, text: Seq<char>, path: Seq<char>) -> bool {
    forall|i: int|
        0 <= i < mods.len() ==> matches_in((#[trigger] mods[i]).decl@, text) || occurs_in(
            mods[i].name@,
            path,
        )
}

/// The record of a source file at `path` with text `content`: the text is
/// normalized first, and all matching is done on the normalized text.
pub open spec fn classified(ps: PatternSet, path: Seq<char>, content: Seq<char>) -> RecordView {
    let n = normalized(content);
    if matches_in(ps.definition@, n) {
        if modules_match(ps.modules@, n, path) {
            RecordView {
                tier: TIER_DEFINITION,
                path,
                summary: collapsed(
                    n,
                    ps.caller@,
                    Some(first_match(ps.definition@, n)->0 as usize),
                ),
                full_body: Some(n),
            }
        } else {
            RecordView { tier: TIER_SAME_NAME, path, summary: n, full_body: None }
        }
    } else if matches_in(ps.caller@, n) {
        RecordView {
            tier: TIER_CALLER,
            path,
            summary: collapsed(n, ps.caller@, None),
            full_body: Some(n),
        }
    } else {
        RecordView { tier: TIER_UNRELATED, path, summary: n, full_body: None }
    }
}

fn modules_found(ps: &PatternSet, text: &str, path: &str) -> (r: bool)
    ensures
        r == modules_match(ps.modules@, text@, path@),
{
    let pc = chars_of(path);
    let mut i: usize = 0;
    while i < ps.modules.len()
        invariant
            0 <= i <= ps.modules@.len(),
            pc@ == path@,
            forall|j: int|
                0 <= j < i ==> matches_in((#[trigger] ps.modules@[j]).decl@, text@) || occurs_in(
                    ps.modules@[j].name@,
                    path@,
                ),
        decreases ps.modules@.len() - i,
    {
        let m = &ps.modules[i];
        if !is_match(&m.decl, text) {
            let nc = chars_of(m.name.as_str());
            if !occurs(nc.as_slice(), pc.as_slice()) {
                return false;
            }
        }
        i = i + 1;
    }
    true
}

/// Ranks one source file. A file that defines the target within its modules
/// gets tier 0 and keeps only the definition's block and the blocks that call
/// the target; one that defines it elsewhere gets tier 3; one that only calls
/// it gets tier 1 and keeps the calling blocks; any other file gets tier 4.
pub fn classify_file(path: &str, content: &str, patterns: &PatternSet) -> (r: FileRecord)
    ensures
        r@ == classified(*patterns, path@, content@),
        r.tier == TIER_DEFINITION || r.tier == TIER_CALLER || r.tier == TIER_SAME_NAME || r.tier
            == TIER_UNRELATED,
{
    let n = normalize(content);
    let path_owned = String::from_str(path);
    match find_start(&patterns.definition, n.as_str()) {
        Some(pos) => {
            if modules_found(patterns, n.as_str(), path) {
                let summary = replace_blocks_not_calling_target_function(
                    n.as_str(),
                    Some(pos),
                    &patterns.caller,
                );
                FileRecord { tier: TIER_DEFINITION, path: path_owned, summary, full_body: Some(n) }
            } else {
                FileRecord { tier: TIER_SAME_NAME, path: path_owned, summary: n, full_body: None }
            }
        },
        None => {
            if is_match(&patterns.caller, n.as_str()) {
                let summary = replace_blocks_not_calling_target_function(
                    n.as_str(),
                    None,
                    &patterns.caller,
                );
                FileRecord { tier: TIER_CALLER, path: path_owned, summary, full_body: Some(n) }
            } else {
                FileRecord { tier: TIER_UNRELATED, path: path_owned, summary: n, full_body: None }
            }
        },
    }
}

/// The record of the project manifest: its whole text, tier 2.
pub fn manifest_record(path: &str, body: String) -> (r: FileRecord)
    ensures
        r@ == (RecordView { tier: TIER_MANIFEST, path: path@, summary: body@, full_body: None }),
{
    FileRecord { tier: TIER_MANIFEST, path: String::from_str(path), summary: body, full_body: None }
}

/// Whether a file name has the source extension, in the sense of
/// `Path::extension`: the part after the last dot, where that dot does not
/// begin the name.
pub open spec fn is_source_name(name: Seq<char>) -> bool {
    name.len() > 3 && name.subrange(name.len() - 3, name.len() as int) == ".rs"@
}

pub fn is_source_file_name(name: &str) -> (r: bool)
    ensures
        r == is_source_name(name@),
{
    let cs = chars_of(name);
    let n = cs.len();
    if n <= 3 {
        return false;
    }
    let r = cs[n - 3] == '.' && cs[n - 2] == 'r' && cs[n - 1] == 's';
    proof {
        reveal_strlit(".rs");
        let tail = name@.subrange(n - 3, n as int);
        if r {
            assert(tail == ".rs"@);
        } else {
            assert(tail != ".rs"@) by {
                if tail == ".rs"@ {
                    assert(tail[0] == '.' && tail[1] == 'r' && tail[2] == 's');
                }
            }
        }
    }
    r
}

/// The records of tier `t`, in their order.
pub open spec fn of_tier(rs: Seq<RecordView>, t: u8) -> Seq<RecordView>
    decreases rs.len(),
{
    if rs.len() == 0 {
        Seq::empty()
    } else if rs.last().tier == t {
        of_tier(rs.drop_last(), t).push(rs.last())
    } else {
        of_tier(rs.drop_last(), t)
    }
}

/// The records of tiers below `k`: first all of tier 0, then all of tier 1,
/// and so on, each tier in its original order.
pub open spec fn tiers_below(rs: Seq<RecordView>, k: nat) -> Seq<RecordView>
    decreases k,
{
    if k == 0 {
        Seq::empty()
    } else {
        tiers_below(rs, (k - 1) as nat) + of_tier(rs, (k - 1) as u8)
    }
}

/// The records stably sorted by tier.
pub open spec fn sorted_by_tier(rs: Seq<RecordView>) -> Seq<RecordView> {
    tiers_below(rs, 5)
}

pub open spec fn record_views(rs: Seq<FileRecord>) -> Seq<RecordView> {
    rs.map_values(|r: FileRecord| r@)
}

pub open spec fn tiers_valid(rs: Seq<RecordView>) -> bool {
    forall|i: int| 0 <= i < rs.len() ==> (#[trigger] rs[i]).tier <= TIER_UNRELATED
}

/// Sorts records by tier, keeping the order of records of equal tier.
pub fn sort_by_tier(records: &Vec<FileRecord>) -> (r: Vec<FileRecord>)
    ensures
        record_views(r@) == sorted_by_tier(record_views(records@)),
        forall|i: int, j: int|
            0 <= i < j < r@.len() ==> (#[trigger] r@[i]).tier <= (#[trigger] r@[j]).tier,
        tiers_valid(record_views(records@)) ==> record_views(r@).to_multiset() == record_views(
            records@,
        ).to_multiset(),
{
    let ghost rs = record_views(records@);
    let mut out: Vec<FileRecord> = Vec::new();
    let mut t: u8 = 0;
    while t < 5
        invariant
            rs == record_views(records@),
            0 <= t <= 5,
            record_views(out@) == tiers_below(rs, t as nat),
        decreases 5 - t,
    {
        let ghost before = record_views(out@);
        let mut j: usize = 0;
        while j < records.len()
            invariant
                rs == record_views(records@),
                0 <= j <= records@.len(),
                t < 5,
                record_views(out@) == before + of_tier(rs.subrange(0, j as int), t),
            decreases records@.len() - j,
        {
            let ghost prev = record_views(out@);
            proof {
                assert(rs.subrange(0, j + 1).drop_last() == rs.subrange(0, j as int));
                assert(rs.subrange(0, j + 1).last() == records@[j as int]@);
            }
            if records[j].tier == t {
                let d = records[j].duplicate();
                out.push(d);
                assert(record_views(out@) == prev.push(d@));
            }
            j = j + 1;
        }
        proof {
            assert(rs.subrange(0, records@.len() as int) == rs);
        }
        t = t + 1;
    }
    proof {
        lemma_sorted_by_tier_ordered(rs);
        assert forall|i: int, j: int| 0 <= i < j < out@.len() implies (#[trigger] out@[i]).tier
            <= (#[trigger] out@[j]).tier by {
            assert(record_views(out@)[i] == out@[i]@);
            assert(record_views(out@)[j] == out@[j]@);
        }
        if tiers_valid(rs) {
            lemma_sorted_by_tier_keeps_all(rs);
        }
    }
    out
}

proof fn lemma_of_tier_tier(rs: Seq<RecordView>, t: u8)
    ensures
        forall|i: int| 0 <= i < of_tier(rs, t).len() ==> (#[trigger] of_tier(rs, t)[i]).tier == t,
        of_tier(rs, t).len() <= rs.len(),
    decreases rs.len(),
{
    if rs.len() > 0 {
        lemma_of_tier_tier(rs.drop_last(), t);
        let r = of_tier(rs.drop_last(), t);
        if rs.last().tier == t {
            assert forall|i: int| 0 <= i < r.push(rs.last()).len() implies (#[trigger] r.push(
                rs.last(),
            )[i]).tier == t by {
                if i < r.len() {
                    assert(r.push(rs.last())[i] == r[i]);
                }
            }
        }
    }
}

proof fn lemma_tiers_below_bound(rs: Seq<RecordView>, k: nat)
    ensures
        forall|i: int|
            0 <= i < tiers_below(rs, k).len() ==> (#[trigger] tiers_below(rs, k)[i]).tier < k,
    decreases k,
{
    if k > 0 {
        let k1 = (k - 1) as nat;
        lemma_tiers_below_bound(rs, k1);
        lemma_of_tier_tier(rs, k1 as u8);
        let a = tiers_below(rs, k1);
        let b = of_tier(rs, k1 as u8);
        assert forall|i: int| 0 <= i < (a + b).len() implies (#[trigger] (a + b)[i]).tier < k by {
            if i < a.len() {
                assert((a + b)[i] == a[i]);
            } else {
                assert((a + b)[i] == b[i - a.len()]);
            }
        }
    }
}

proof fn lemma_tiers_below_sorted(rs: Seq<RecordView>, k: nat)
    requires
        k <= 256,
    ensures
        forall|i: int, j: int|
            0 <= i < j < tiers_below(rs, k).len() ==> (#[trigger] tiers_below(rs, k)[i]).tier
                <= (#[trigger] tiers_below(rs, k)[j]).tier,
    decreases k,
{
    if k > 0 {
        let k1 = (k - 1) as nat;
        lemma_tiers_below_sorted(rs, k1);
        lemma_tiers_below_bound(rs, k1);
        lemma_of_tier_tier(rs, k1 as u8);
        let a = tiers_below(rs, k1);
        let b = of_tier(rs, k1 as u8);
        assert forall|i: int, j: int| 0 <= i < j < (a + b).len() implies (#[trigger] (a + b)[i]).tier
            <= (#[trigger] (a + b)[j]).tier by {
            if j < a.len() {
                assert((a + b)[i] == a[i]);
                assert((a + b)[j] == a[j]);
            } else if i < a.len() {
                assert((a + b)[i] == a[i]);
                assert((a + b)[j] == b[j - a.len()]);
            } else {
                assert((a + b)[i] == b[i - a.len()]);
                assert((a + b)[j] == b[j - a.len()]);
            }
        }
    }
}

/// Sorting by tier puts the records in non-decreasing order of tier.
pub proof fn lemma_sorted_by_tier_ordered(rs: Seq<RecordView>)
    ensures
        forall|i: int, j: int|
            0 <= i < j < sorted_by_tier(rs).len() ==> (#[trigger] sorted_by_tier(rs)[i]).tier
                <= (#[trigger] sorted_by_tier(rs)[j]).tier,
{
    lemma_tiers_below_sorted(rs, 5);
}

proof fn lemma_tiers_below_empty(k: nat)
    ensures
        tiers_below(Seq::<RecordView>::empty(), k) == Seq::<RecordView>::empty(),
    decreases k,
{
    if k > 0 {
        lemma_tiers_below_empty((k - 1) as nat);
        let e = Seq::<RecordView>::empty();
        assert(of_tier(e, (k - 1) as u8) == e);
        assert(e + e == e);
    }
}

proof fn lemma_tiers_below_push(rs: Seq<RecordView>, x: RecordView, k: nat)
    requires
        k <= 256,
    ensures
        tiers_below(rs.push(x), k).to_multiset() == if (x.tier as nat) < k {
            tiers_below(rs, k).to_multiset().insert(x)
        } else {
            tiers_below(rs, k).to_multiset()
        },
    decreases k,
{
    broadcast use vstd::seq_lib::lemma_multiset_commutative;
    broadcast use vstd::seq_lib::to_multiset_build;
    broadcast use vstd::multiset::group_multiset_axioms;

    if k == 0 {
    } else {
        let k1 = (k - 1) as nat;
        let t = k1 as u8;
        lemma_tiers_below_push(rs, x, k1);
        let rx = rs.push(x);
        assert(rx.drop_last() == rs);
        assert(rx.last() == x);
        let a = tiers_below(rs, k1);
        let b = of_tier(rs, t);
        let a2 = tiers_below(rx, k1);
        let b2 = of_tier(rx, t);
        assert(tiers_below(rx, k) == a2 + b2);
        assert(tiers_below(rs, k) == a + b);
        assert((a2 + b2).to_multiset() == a2.to_multiset().add(b2.to_multiset()));
        assert((a + b).to_multiset() == a.to_multiset().add(b.to_multiset()));
        if x.tier == t {
            assert(b2 == b.push(x));
            assert(b2.to_multiset() == b.to_multiset().insert(x));
            assert(a2.to_multiset() == a.to_multiset());
            assert(a2.to_multiset().add(b2.to_multiset()) =~= a.to_multiset().add(
                b.to_multiset(),
            ).insert(x));
        } else {
            assert(b2 == b);
            if (x.tier as nat) < k1 {
                assert(a2.to_multiset().add(b2.to_multiset()) =~= a.to_multiset().add(
                    b.to_multiset(),
                ).insert(x));
            }
        }
    }
}

/// Sorting by tier keeps every record with a valid tier, each as often as before.
pub proof fn lemma_sorted_by_tier_keeps_all(rs: Seq<RecordView>)
    requires
        tiers_valid(rs),
    ensures
        sorted_by_tier(rs).to_multiset() == rs.to_multiset(),
    decreases rs.len(),
{
    broadcast use vstd::seq_lib::to_multiset_build;

    if rs.len() == 0 {
        lemma_tiers_below_empty(5);
        assert(rs == Seq::<RecordView>::empty());
    } else {
        let front = rs.drop_last();
        let x = rs.last();
        assert(tiers_valid(front)) by {
            assert forall|i: int| 0 <= i < front.len() implies (#[trigger] front[i]).tier
                <= TIER_UNRELATED by {
                assert(front[i] == rs[i]);
            }
        }
        assert(x.tier <= TIER_UNRELATED) by {
            assert(rs[rs.len() - 1] == x);
        }
        lemma_sorted_by_tier_keeps_all(front);
        assert(front.push(x) == rs);
        lemma_tiers_below_push(front, x, 5);
    }
}

} // verus!

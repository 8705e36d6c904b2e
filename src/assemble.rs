//! Assembly of ranked records into one text within a byte budget.
use vstd::prelude::*;
use crate::classify::FileRecord;
use crate::classify::RecordView;
use crate::classify::TIER_MANIFEST;
use crate::classify::manifest_record;
use crate::classify::opt_view;
use crate::classify::record_views;
use crate::classify::sort_by_tier;
use crate::classify::sorted_by_tier;
use crate::text::chars_of;
use crate::text::push_range;
use crate::text::string_from_chars;

verus! {

/// Records of this tier or lower decide between full bodies and summaries.
pub const FULL_BODY_TIER_LIMIT: u8 = 2;

/// The length in bytes of the UTF-8 encoding of a text.
pub open spec fn byte_len(s: Seq<char>) -> nat {
    vstd::utf8::encode_utf8(s).len()
}

/// The representation a record would rather be shown in: its full body when it has one.
pub open spec fn preferred(r: RecordView) -> Seq<char> {
    match r.full_body {
        Some(b) => b,
        None => r.summary,
    }
}

/// Total byte length of the preferred representations of the records of
/// tier `goal` or lower.
pub open spec fn draft_sum(rs: Seq<RecordView>, goal: u8) -> nat
    decreases rs.len(),
{
    if rs.len() == 0 {
        0
    } else {
        draft_sum(rs.drop_last(), goal) + if rs.last().tier <= goal {
            byte_len(preferred(rs.last()))
        } else {
            0
        }
    }
}

/// Whether full bodies are shown: the draft sum fits in what the prefix left of the budget.
pub open spec fn full_mode(rs: Seq<RecordView>, goal: u8, prefix: nat, budget: nat) -> bool {
    prefix + draft_sum(rs, goal) <= budget
}

/// What is shown of a record in the given mode.
pub open spec fn shown(r: RecordView, full: bool) -> Seq<char> {
    if full {
        preferred(r)
    } else {
        r.summary
    }
}

/// One record framed by a header and a footer that name its path.
pub open spec fn framed(r: RecordView, full: bool) -> Seq<char> {
    "\n\n\n////// Top of File: "@ + r.path + " //////\n\n"@ + shown(r, full)
        + "\n\n////// End of File: "@ + r.path + " //////\n\n\n"@
}

/// All records framed, in order.
pub open spec fn rendered(rs: Seq<RecordView>, full: bool) -> Seq<char>
    decreases rs.len(),
{
    if rs.len() == 0 {
        Seq::empty()
    } else {
        rendered(rs.drop_last(), full) + framed(rs.last(), full)
    }
}

/// The first `budget` characters of a text.
pub open spec fn truncated(s: Seq<char>, budget: nat) -> Seq<char> {
    if s.len() <= budget {
        s
    } else {
        s.subrange(0, budget as int)
    }
}

proof fn lemma_draft_sum_prefix(rs: Seq<RecordView>, goal: u8, k: int)
    requires
        0 <= k <= rs.len(),
    ensures
        draft_sum(rs.subrange(0, k), goal) <= draft_sum(rs, goal),
    decreases rs.len(),
{
    if k < rs.len() {
        lemma_draft_sum_prefix(rs.drop_last(), goal, k);
        assert(rs.drop_last().subrange(0, k) == rs.subrange(0, k));
    } else {
        assert(rs.subrange(0, k) == rs);
    }
}

/// Decides the mode: full bodies exactly when the prefix already used plus
/// the draft sum over tiers up to `goal` stays within the budget.
pub fn use_full_body(
    all_files: &Vec<FileRecord>,
    goal: u8,
    extra_content_size: usize,
    window_size_bytes: usize,
) -> (r: bool)
    ensures
        r == full_mode(
            record_views(all_files@),
            goal,
            extra_content_size as nat,
            window_size_bytes as nat,
        ),
{
    let ghost rs = record_views(all_files@);
    if extra_content_size > window_size_bytes {
        return false;
    }
    let room = window_size_bytes - extra_content_size;
    let mut sum: usize = 0;
    let mut i: usize = 0;
    proof {
        assert(rs.subrange(0, 0) == Seq::<RecordView>::empty());
    }
    while i < all_files.len()
        invariant
            rs == record_views(all_files@),
            room == window_size_bytes - extra_content_size,
            0 <= i <= all_files@.len(),
            sum == draft_sum(rs.subrange(0, i as int), goal),
            sum <= room,
        decreases all_files@.len() - i,
    {
        let f = &all_files[i];
        proof {
            assert(rs.subrange(0, i + 1).drop_last() == rs.subrange(0, i as int));
            assert(rs.subrange(0, i + 1).last() == f@);
        }
        if f.tier <= goal {
            let len = match &f.full_body {
                Some(b) => b.as_str().as_bytes().len(),
                None => f.summary.as_str().as_bytes().len(),
            };
            assert(len == byte_len(preferred(f@)));
            if len > room - sum {
                proof {
                    lemma_draft_sum_prefix(rs, goal, i + 1);
                }
                return false;
            }
            sum = sum + len;
        }
        i = i + 1;
    }
    proof {
        assert(rs.subrange(0, i as int) == rs);
    }
    true
}

fn push_framed(result: &mut String, f: &FileRecord, full: bool)
    ensures
        final(result)@ == old(result)@ + framed(f@, full),
{
    result.append("\n\n\n////// Top of File: ");
    result.append(f.path.as_str());
    result.append(" //////\n\n");
    if full {
        match &f.full_body {
            Some(b) => result.append(b.as_str()),
            None => result.append(f.summary.as_str()),
        }
    } else {
        result.append(f.summary.as_str());
    }
    result.append("\n\n////// End of File: ");
    result.append(f.path.as_str());
    result.append(" //////\n\n\n");
}

/// Appends every record, framed, to `result`: full bodies where records have
/// them if the mode allows (see `use_full_body`), summaries otherwise.
pub fn join_all_bodies(
    window_size_bytes: usize,
    result: &mut String,
    extra_content_size: usize,
    all_files: &Vec<FileRecord>,
    goal: u8,
)
    ensures
        final(result)@ == old(result)@ + rendered(
            record_views(all_files@),
            full_mode(
                record_views(all_files@),
                goal,
                extra_content_size as nat,
                window_size_bytes as nat,
            ),
        ),
{
    let ghost rs = record_views(all_files@);
    let ghost start = result@;
    let full = use_full_body(all_files, goal, extra_content_size, window_size_bytes);
    let mut i: usize = 0;
    proof {
        assert(rs.subrange(0, 0) == Seq::<RecordView>::empty());
    }
    while i < all_files.len()
        invariant
            rs == record_views(all_files@),
            0 <= i <= all_files@.len(),
            result@ == start + rendered(rs.subrange(0, i as int), full),
        decreases all_files@.len() - i,
    {
        push_framed(result, &all_files[i], full);
        proof {
            assert(rs.subrange(0, i + 1).drop_last() == rs.subrange(0, i as int));
            assert(rs.subrange(0, i + 1).last() == all_files@[i as int]@);
        }
        i = i + 1;
    }
    proof {
        assert(rs.subrange(0, i as int) == rs);
    }
}

/// The first `budget` characters of `text`.
pub fn truncate_to_budget(text: String, budget: usize) -> (r: String)
    ensures
        r@ == truncated(text@, budget as nat),
        r@.len() <= budget,
{
    let cs = chars_of(text.as_str());
    if cs.len() <= budget {
        return text;
    }
    let mut out: Vec<char> = Vec::new();
    push_range(&mut out, cs.as_slice(), 0, budget);
    string_from_chars(out.as_slice())
}

/// Shown in place of the manifest when the project has none.
pub open spec fn missing_manifest_note() -> Seq<char> {
    "Unable to find Cargo.toml, this is probably a new project\n"@
}

/// The records to assemble: the files, then the manifest record if there is a manifest.
pub open spec fn with_manifest(
    records: Seq<RecordView>,
    manifest_path: Seq<char>,
    manifest: Option<Seq<char>>,
) -> Seq<RecordView> {
    match manifest {
        Some(body) => records.push(
            RecordView { tier: TIER_MANIFEST, path: manifest_path, summary: body, full_body: None },
        ),
        None => records,
    }
}

/// The whole context: the preamble, the note if there is no manifest, then
/// every record sorted by tier and framed, in the mode that the preamble's
/// byte length and the budget decide; cut to `budget` characters.
pub open spec fn context(
    preamble: Seq<char>,
    records: Seq<RecordView>,
    manifest_path: Seq<char>,
    manifest: Option<Seq<char>>,
    budget: nat,
) -> Seq<char> {
    let sorted = sorted_by_tier(with_manifest(records, manifest_path, manifest));
    let head = if manifest is Some {
        preamble
    } else {
        preamble + missing_manifest_note()
    };
    truncated(
        head + rendered(sorted, full_mode(sorted, FULL_BODY_TIER_LIMIT, byte_len(preamble), budget)),
        budget,
    )
}

/// Assembles the context from a preamble, the ranked file records, and the
/// manifest's text if the project has one, within `budget`.
pub fn build_context(
    preamble: &str,
    records: Vec<FileRecord>,
    manifest_path: &str,
    manifest: Option<String>,
    budget: usize,
) -> (r: String)
    ensures
        r@ == context(
            preamble@,
            record_views(records@),
            manifest_path@,
            opt_view(manifest),
            budget as nat,
        ),
        r@.len() <= budget,
{
    let mut out = String::from_str(preamble);
    let extra = preamble.as_bytes().len();
    let mut all = records;
    let ghost rs = record_views(all@);
    match manifest {
        Some(body) => {
            let m = manifest_record(manifest_path, body);
            let ghost m_view = m@;
            all.push(m);
            assert(record_views(all@) == rs.push(m_view));
        },
        None => {
            out.append("Unable to find Cargo.toml, this is probably a new project\n");
        },
    }
    let sorted = sort_by_tier(&all);
    join_all_bodies(budget, &mut out, extra, &sorted, FULL_BODY_TIER_LIMIT);
    truncate_to_budget(out, budget)
}

} // verus!

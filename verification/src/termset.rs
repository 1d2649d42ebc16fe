//! Phenotype profiles: duplicate-free sets of term ids, and the parser that
//! reads them out of the raw delimited form `HP:nnnnnnn; HP:nnnnnnn; ...`.

use vstd::prelude::*;

verus! {

use crate::SimError;
use crate::ontology::contains_id;

/// The input with later repetitions of an id dropped: first occurrences, in
/// order.
pub open spec fn dedup_spec(s: Seq<u32>) -> Seq<u32>
    decreases s.len(),
{
    if s.len() == 0 {
        Seq::empty()
    } else {
        let pre = dedup_spec(s.drop_last());
        if pre.contains(s.last()) {
            pre
        } else {
            pre.push(s.last())
        }
    }
}

/// Deduplication yields a duplicate-free list with the same members.
pub proof fn lemma_dedup_props(s: Seq<u32>)
    ensures
        dedup_spec(s).no_duplicates(),
        forall|x: u32| dedup_spec(s).contains(x) == s.contains(x),
        dedup_spec(s).to_set() == s.to_set(),
    decreases s.len(),
{
    broadcast use vstd::seq_lib::group_seq_properties;

    if s.len() > 0 {
        lemma_dedup_props(s.drop_last());
        let pre = dedup_spec(s.drop_last());
        assert(s =~= s.drop_last().push(s.last()));
    }
    assert(dedup_spec(s).to_set() =~= s.to_set());
}

/// Drops every repeated id, keeping first occurrences in order.
pub fn dedup_ids(src: &Vec<u32>) -> (r: Vec<u32>)
    ensures
        r@ == dedup_spec(src@),
        r@.no_duplicates(),
        forall|x: u32| r@.contains(x) == src@.contains(x),
        r@.to_set() == src@.to_set(),
{
    let n = src.len();
    let mut out: Vec<u32> = Vec::new();
    let mut i: usize = 0;
    while i < n
        invariant
            i <= n,
            n == src@.len(),
            out@ == dedup_spec(src@.take(i as int)),
        decreases n - i,
    {
        let x = src[i];
        proof {
            let grown = src@.take(i + 1);
            assert(grown.drop_last() =~= src@.take(i as int));
            assert(grown.last() == x);
        }
        if !contains_id(&out, x) {
            out.push(x);
        }
        i += 1;
    }
    proof {
        assert(src@.take(n as int) =~= src@);
        lemma_dedup_props(src@);
    }
    out
}

/// A phenotype profile: a duplicate-free list of term ids. Its view is the
/// id sequence; order is the first-occurrence order of construction.
pub struct TermSet {
    pub ids: Vec<u32>,
}

impl View for TermSet {
    type V = Seq<u32>;

    open spec fn view(&self) -> Seq<u32> {
        self.ids@
    }
}

impl TermSet {
    /// The profile is well formed: no term id occurs twice.
    pub open spec fn wf(self) -> bool {
        self.ids@.no_duplicates()
    }

    /// Builds a profile from raw ids, dropping repetitions.
    pub fn new(raw: Vec<u32>) -> (r: TermSet)
        ensures
            r@ == dedup_spec(raw@),
            r.wf(),
            forall|x: u32| r@.contains(x) == raw@.contains(x),
    {
        TermSet { ids: dedup_ids(&raw) }
    }

    /// Number of distinct terms in the profile.
    pub fn len(&self) -> (r: usize)
        ensures
            r == self@.len(),
    {
        self.ids.len()
    }
}

/// Every byte is an ASCII digit.
pub open spec fn all_digits(s: Seq<u8>) -> bool {
    forall|i: int| 0 <= i < s.len() ==> 48 <= #[trigger] s[i] <= 57
}

/// The number the digit string stands for, most significant digit first.
pub open spec fn digits_val(s: Seq<u8>) -> int
    decreases s.len(),
{
    if s.len() == 0 {
        0
    } else {
        digits_val(s.drop_last()) * 10 + (s.last() - 48)
    }
}

/// A longer digit string never stands for a smaller number.
pub proof fn lemma_digits_val_grows(s: Seq<u8>, i: int)
    requires
        all_digits(s),
        0 <= i <= s.len(),
    ensures
        0 <= digits_val(s.take(i)) <= digits_val(s),
    decreases s.len() - i,
{
    if i == s.len() {
        assert(s.take(i) =~= s);
        lemma_digits_val_nonneg(s);
    } else {
        lemma_digits_val_grows(s, i + 1);
        assert(s.take(i + 1).drop_last() =~= s.take(i));
        assert(48 <= s[i] <= 57);
        lemma_digits_val_nonneg(s.take(i));
    }
}

/// Digit strings stand for non-negative numbers.
pub proof fn lemma_digits_val_nonneg(s: Seq<u8>)
    requires
        all_digits(s),
    ensures
        0 <= digits_val(s),
    decreases s.len(),
{
    if s.len() > 0 {
        assert(s.drop_last() =~= s.take(s.len() - 1));
        lemma_digits_val_nonneg(s.drop_last());
    }
}

/// What a single raw segment stands for: `Some` exactly when it is the term
/// prefix `HP:` followed by at least one ASCII digit whose value fits a
/// `u32`.
pub open spec fn parse_code_spec(s: Seq<u8>) -> Option<u32> {
    if s.len() >= 4 && s[0] == 72 && s[1] == 80 && s[2] == 58 && all_digits(s.skip(3))
        && digits_val(s.skip(3)) <= u32::MAX {
        Some(digits_val(s.skip(3)) as u32)
    } else {
        None
    }
}

/// Parses one raw segment of the form `HP:nnnnnnn`.
pub fn parse_code(seg: &Vec<u8>) -> (r: Option<u32>)
    ensures
        r == parse_code_spec(seg@),
{
    let n = seg.len();
    if n < 4 {
        return None;
    }
    if seg[0] != 72 || seg[1] != 80 || seg[2] != 58 {
        return None;
    }
    let ghost digits = seg@.skip(3);
    let mut acc: u64 = 0;
    let mut i: usize = 3;
    while i < n
        invariant
            3 <= i <= n,
            n == seg@.len(),
            n >= 4,
            digits == seg@.skip(3),
            all_digits(digits.take(i - 3)),
            acc == digits_val(digits.take(i - 3)),
            acc <= u32::MAX,
        decreases n - i,
    {
        let d = seg[i];
        if d < 48 || d > 57 {
            proof {
                assert(digits[i - 3] == seg@[i as int]);
                assert(!all_digits(seg@.skip(3)));
            }
            return None;
        }
        proof {
            assert(digits.take(i - 3 + 1).drop_last() =~= digits.take(i - 3));
            assert(digits.take(i - 3 + 1).last() == digits[i - 3] == seg@[i as int]);
        }
        acc = acc * 10 + ((d - 48) as u64);
        if acc > 0xFFFF_FFFF {
            proof {
                if all_digits(digits) {
                    lemma_digits_val_grows(digits, i - 3 + 1);
                }
            }
            return None;
        }
        i += 1;
    }
    proof {
        assert(digits.take(n - 3) =~= digits);
    }
    Some(acc as u32)
}

/// The two-byte record separator `"; "` stands at position `i`.
pub open spec fn sep_at(s: Seq<u8>, i: int) -> bool {
    s[i] == 59 && s[i + 1] == 32
}

/// Index of the first record separator, or `-1` if there is none.
pub open spec fn find_sep(s: Seq<u8>) -> int
    decreases s.len(),
{
    if s.len() < 2 {
        -1
    } else if sep_at(s, 0) {
        0
    } else {
        let r = find_sep(s.drop_first());
        if r == -1 {
            -1
        } else {
            r + 1
        }
    }
}

/// A separator at `i` with none before it is the first one.
pub proof fn lemma_find_sep_at(s: Seq<u8>, i: int)
    requires
        0 <= i,
        i + 2 <= s.len(),
        sep_at(s, i),
        forall|j: int| 0 <= j < i ==> !sep_at(s, j),
    ensures
        find_sep(s) == i,
    decreases i,
{
    if i > 0 {
        let t = s.drop_first();
        assert(forall|j: int| 0 <= j < t.len() ==> #[trigger] t[j] == s[j + 1]);
        assert(sep_at(t, i - 1));
        assert forall|j: int| 0 <= j < i - 1 implies !sep_at(t, j) by {
            assert(!sep_at(s, j + 1));
        }
        lemma_find_sep_at(t, i - 1);
        assert(!sep_at(s, 0));
    }
}

/// With no separator anywhere there is no first one.
pub proof fn lemma_find_sep_none(s: Seq<u8>)
    requires
        forall|j: int| 0 <= j && j + 2 <= s.len() ==> !sep_at(s, j),
    ensures
        find_sep(s) == -1,
    decreases s.len(),
{
    if s.len() >= 2 {
        let t = s.drop_first();
        assert(forall|j: int| 0 <= j < t.len() ==> #[trigger] t[j] == s[j + 1]);
        assert forall|j: int| 0 <= j && j + 2 <= t.len() implies !sep_at(t, j) by {
            assert(!sep_at(s, j + 1));
        }
        lemma_find_sep_none(t);
    }
}

/// Finds the first record separator.
fn find_sep_exec(s: &Vec<u8>) -> (r: Option<usize>)
    ensures
        match r {
            Some(i) => i + 2 <= s@.len() && find_sep(s@) == i,
            None => find_sep(s@) == -1,
        },
{
    let n = s.len();
    if n < 2 {
        proof {
            lemma_find_sep_none(s@);
        }
        return None;
    }
    let mut i: usize = 0;
    while i <= n - 2
        invariant
            i <= n,
            n == s@.len(),
            n >= 2,
            forall|j: int| 0 <= j < i ==> !sep_at(s@, j),
        decreases n - i,
    {
        if s[i] == 59 && s[i + 1] == 32 {
            proof {
                lemma_find_sep_at(s@, i as int);
            }
            return Some(i);
        }
        i += 1;
    }
    proof {
        lemma_find_sep_none(s@);
    }
    None
}

/// The raw field split at every record separator; the split of an empty
/// field is one empty segment.
pub open spec fn split_segments(s: Seq<u8>) -> Seq<Seq<u8>>
    decreases s.len(),
{
    let i = find_sep(s);
    if i < 0 || i + 2 > s.len() {
        seq![s]
    } else {
        seq![s.take(i)] + split_segments(s.skip(i + 2))
    }
}

/// Copies `s[from..to]` out as a fresh vector.
fn copy_range(s: &Vec<u8>, from: usize, to: usize) -> (r: Vec<u8>)
    requires
        from <= to <= s@.len(),
    ensures
        r@ == s@.subrange(from as int, to as int),
{
    let mut out: Vec<u8> = Vec::new();
    let mut i: usize = from;
    while i < to
        invariant
            from <= i <= to <= s@.len(),
            out@ == s@.subrange(from as int, i as int),
        decreases to - i,
    {
        out.push(s[i]);
        proof {
            assert(out@ =~= s@.subrange(from as int, i + 1));
        }
        i += 1;
    }
    out
}

/// Splits a raw field at every record separator.
pub fn split_segments_exec(s: &Vec<u8>) -> (r: Vec<Vec<u8>>)
    ensures
        r@.map_values(|v: Vec<u8>| v@) == split_segments(s@),
    decreases s@.len(),
{
    match find_sep_exec(s) {
        None => {
            let whole = copy_range(s, 0, s.len());
            let mut out: Vec<Vec<u8>> = Vec::new();
            proof {
                assert(whole@ =~= s@);
            }
            out.push(whole);
            proof {
                assert(out@.map_values(|v: Vec<u8>| v@) =~= split_segments(s@));
            }
            out
        },
        Some(i) => {
            let n = s.len();
            let head = copy_range(s, 0, i);
            let tail = copy_range(s, i + 2, n);
            proof {
                assert(head@ =~= s@.take(i as int));
                assert(tail@ =~= s@.skip(i + 2));
            }
            let mut rest = split_segments_exec(&tail);
            let mut out: Vec<Vec<u8>> = Vec::new();
            out.push(head);
            out.append(&mut rest);
            proof {
                assert(out@.map_values(|v: Vec<u8>| v@) =~= split_segments(s@));
            }
            out
        },
    }
}

/// What the segments stand for: `Some` of all parsed ids, in order, exactly
/// when every segment parses.
pub open spec fn parsed_codes(segs: Seq<Seq<u8>>) -> Option<Seq<u32>>
    decreases segs.len(),
{
    if segs.len() == 0 {
        Some(Seq::empty())
    } else {
        match parse_code_spec(segs[0]) {
            None => None,
            Some(v) => match parsed_codes(segs.drop_first()) {
                None => None,
                Some(rest) => Some(seq![v] + rest),
            },
        }
    }
}

/// One unparseable segment spoils the whole field.
pub proof fn lemma_parsed_codes_none(segs: Seq<Seq<u8>>, i: int)
    requires
        0 <= i < segs.len(),
        parse_code_spec(segs[i]).is_none(),
    ensures
        parsed_codes(segs).is_none(),
    decreases segs.len(),
{
    if segs.len() > 0 && i > 0 {
        assert(segs.drop_first()[i - 1] == segs[i]);
        lemma_parsed_codes_none(segs.drop_first(), i - 1);
    }
}

/// When every segment parses, the field parses to the ids in order.
pub proof fn lemma_parsed_codes_all(segs: Seq<Seq<u8>>, vals: Seq<u32>)
    requires
        vals.len() == segs.len(),
        forall|j: int| 0 <= j < segs.len() ==> parse_code_spec(#[trigger] segs[j]) == Some(
            vals[j],
        ),
    ensures
        parsed_codes(segs) == Some(vals),
    decreases segs.len(),
{
    if segs.len() > 0 {
        assert(forall|j: int|
            0 <= j < segs.drop_first().len() ==> #[trigger] segs.drop_first()[j] == segs[j + 1]);
        assert(forall|j: int|
            0 <= j < vals.drop_first().len() ==> #[trigger] vals.drop_first()[j] == vals[j + 1]);
        lemma_parsed_codes_all(segs.drop_first(), vals.drop_first());
        assert(vals =~= seq![vals[0]] + vals.drop_first());
    }
}

/// What the whole raw term field stands for.
pub open spec fn parse_terms_spec(s: Seq<u8>) -> Option<Seq<u32>> {
    parsed_codes(split_segments(s))
}

/// Parses a raw delimited term field.
///
/// Succeeds exactly when every `"; "`-separated segment carries the `HP:`
/// prefix and a numeric suffix that fits; a malformed segment is a data
/// error, never a silent skip.
pub fn parse_terms(s: &Vec<u8>) -> (r: Result<Vec<u32>, SimError>)
    ensures
        match r {
            Ok(v) => parse_terms_spec(s@) == Some(v@),
            Err(e) => e == SimError::DataError && parse_terms_spec(s@).is_none(),
        },
{
    let segs = split_segments_exec(s);
    let ghost gsegs = split_segments(s@);
    proof {
        assert(forall|j: int|
            0 <= j < segs@.len() ==> (#[trigger] segs@[j])@ == segs@.map_values(
                |v: Vec<u8>| v@,
            )[j]);
    }
    let n = segs.len();
    let mut out: Vec<u32> = Vec::new();
    let mut i: usize = 0;
    while i < n
        invariant
            i <= n,
            n == segs@.len(),
            gsegs == split_segments(s@),
            segs@.map_values(|v: Vec<u8>| v@) == gsegs,
            forall|j: int|
                0 <= j < segs@.len() ==> (#[trigger] segs@[j])@ == gsegs[j],
            out@.len() == i,
            forall|j: int| 0 <= j < i ==> parse_code_spec(gsegs[j]) == Some(#[trigger] out@[j]),
        decreases n - i,
    {
        match parse_code(&segs[i]) {
            Some(v) => {
                out.push(v);
            },
            None => {
                proof {
                    lemma_parsed_codes_none(gsegs, i as int);
                }
                return Err(SimError::DataError);
            },
        }
        i += 1;
    }
    proof {
        lemma_parsed_codes_all(gsegs, out@);
    }
    Ok(out)
}

} // verus!

//! Finding the script blocks of a document and pairing their markers.
//!
//! Positions are counted in characters of the document.
use vstd::prelude::*;

verus! {

/// The text that opens a script block.
pub open spec fn start_marker() -> Seq<char> {
    seq!['<', 'l', 'u', 'a', '>']
}

/// The text that closes a script block.
pub open spec fn end_marker() -> Seq<char> {
    seq!['<', '/', 'l', 'u', 'a', '>']
}

/// `m` stands in `s` at position `i`.
pub open spec fn occurs_at(s: Seq<char>, m: Seq<char>, i: int) -> bool {
    0 <= i && i + m.len() <= s.len() && s.subrange(i, i + m.len()) == m
}

/// The positions of `m` in `s` from `i` on, found left to right; a match
/// consumes its own length before the search resumes.
pub open spec fn matches_from(s: Seq<char>, m: Seq<char>, i: int) -> Seq<int>
    decreases s.len() - i,
{
    if i < 0 || m.len() == 0 || i + m.len() > s.len() {
        seq![]
    } else if occurs_at(s, m, i) {
        seq![i] + matches_from(s, m, i + m.len())
    } else {
        matches_from(s, m, i + 1)
    }
}

/// Positions of the start markers in a document.
pub open spec fn start_positions(d: Seq<char>) -> Seq<int> {
    matches_from(d, start_marker(), 0)
}

/// Positions of the end markers in a document.
pub open spec fn end_positions(d: Seq<char>) -> Seq<int> {
    matches_from(d, end_marker(), 0)
}

/// Why the markers of a document cannot be paired into blocks.
#[derive(Debug, Clone, Copy, PartialEq, Eq, Structural)]
pub enum CodeBlockParseError {
    MissingBlockStart,
    MissingBlockEnd,
}

impl CodeBlockParseError {
    /// A human-readable rendering of the error.
    pub fn message(&self) -> (r: String)
        ensures
            r@ == (match self {
                CodeBlockParseError::MissingBlockStart => "Missing code block start"@,
                CodeBlockParseError::MissingBlockEnd => "Missing code block end"@,
            }),
    {
        match self {
            CodeBlockParseError::MissingBlockStart => "Missing code block start".to_owned(),
            CodeBlockParseError::MissingBlockEnd => "Missing code block end".to_owned(),
        }
    }
}

/// With as many starts as ends, the first place from block `i` on where the
/// markers do not alternate: an end before its start, or a start before the
/// end of the block ahead of it.
pub open spec fn misorder_from(st: Seq<int>, en: Seq<int>, i: int) -> Option<CodeBlockParseError>
    decreases st.len() - i,
{
    if i < 0 || i >= st.len() || i >= en.len() {
        None
    } else if en[i] <= st[i] {
        Some(CodeBlockParseError::MissingBlockStart)
    } else if i + 1 < st.len() && st[i + 1] <= en[i] {
        Some(CodeBlockParseError::MissingBlockEnd)
    } else {
        misorder_from(st, en, i + 1)
    }
}

/// Starts and ends alternate: start, end, start, end, ... in document order.
pub open spec fn alternating(st: Seq<int>, en: Seq<int>) -> bool {
    st.len() == en.len() && forall|i: int|
        0 <= i < st.len() ==> #[trigger] st[i] < en[i] && (i + 1 < st.len() ==> en[i] < st[i + 1])
}

/// The error that pairing the markers of `d` ends in, if any: the counts
/// decide first, then the order.
pub open spec fn pairing_error(d: Seq<char>) -> Option<CodeBlockParseError> {
    let st = start_positions(d);
    let en = end_positions(d);
    if st.len() > en.len() {
        Some(CodeBlockParseError::MissingBlockEnd)
    } else if st.len() < en.len() {
        Some(CodeBlockParseError::MissingBlockStart)
    } else {
        misorder_from(st, en, 0)
    }
}

/// The source between the markers of block `i` of `d`.
pub open spec fn block_source(d: Seq<char>, i: int) -> Seq<char> {
    d.subrange(start_positions(d)[i] + start_marker().len(), end_positions(d)[i])
}

/// Every position found is a match, they ascend, and none lies before `i`.
pub proof fn lemma_matches_from(s: Seq<char>, m: Seq<char>, i: int)
    ensures
        forall|k: int|
            0 <= k < matches_from(s, m, i).len() ==> occurs_at(s, m, #[trigger] matches_from(
                s,
                m,
                i,
            )[k]) && matches_from(s, m, i)[k] >= i,
        forall|k: int|
            0 <= k < matches_from(s, m, i).len() - 1 ==> #[trigger] matches_from(s, m, i)[k]
                + m.len() <= matches_from(s, m, i)[k + 1],
    decreases s.len() - i,
{
    if i < 0 || m.len() == 0 || i + m.len() > s.len() {
    } else if occurs_at(s, m, i) {
        lemma_matches_from(s, m, i + m.len());
        let r = matches_from(s, m, i + m.len());
        assert(matches_from(s, m, i) == seq![i] + r);
        assert forall|k: int| 0 <= k < matches_from(s, m, i).len() implies occurs_at(
            s,
            m,
            #[trigger] matches_from(s, m, i)[k],
        ) && matches_from(s, m, i)[k] >= i by {
            if k > 0 {
                assert(matches_from(s, m, i)[k] == r[k - 1]);
            }
        }
        assert forall|k: int| 0 <= k < matches_from(s, m, i).len() - 1 implies #[trigger] matches_from(
            s,
            m,
            i,
        )[k] + m.len() <= matches_from(s, m, i)[k + 1] by {
            if k > 0 {
                assert(matches_from(s, m, i)[k] == r[k - 1]);
            }
        }
    } else {
        lemma_matches_from(s, m, i + 1);
        assert(matches_from(s, m, i) == matches_from(s, m, i + 1));
    }
}

/// An end marker never starts inside a start marker, nor a start marker
/// inside an end marker.
pub proof fn lemma_markers_apart(d: Seq<char>, a: int, b: int)
    requires
        occurs_at(d, start_marker(), a),
        occurs_at(d, end_marker(), b),
    ensures
        a < b ==> a + start_marker().len() <= b,
        b < a ==> b + end_marker().len() <= a,
{
    assert(d[a] == d.subrange(a, a + 5)[0]);
    assert(d[b] == d.subrange(b, b + 6)[0]);
    if a < b && b < a + 5 {
        assert(d[b] == d.subrange(a, a + 5)[b - a]);
    }
    if b < a && a < b + 6 {
        assert(d[a] == d.subrange(b, b + 6)[a - b]);
    }
}

/// With as many starts as ends, the order check passes exactly when the
/// markers alternate.
pub proof fn lemma_misorder_alternating(st: Seq<int>, en: Seq<int>, i: int)
    requires
        st.len() == en.len(),
        0 <= i <= st.len(),
    ensures
        misorder_from(st, en, i) is None <==> forall|j: int|
            i <= j < st.len() ==> #[trigger] st[j] < en[j] && (j + 1 < st.len() ==> en[j] < st[j
                + 1]),
    decreases st.len() - i,
{
    if i < st.len() {
        lemma_misorder_alternating(st, en, i + 1);
        if misorder_from(st, en, i) is None {
            assert(en[i] > st[i]);
            assert(misorder_from(st, en, i + 1) is None);
            assert forall|j: int| i <= j < st.len() implies #[trigger] st[j] < en[j] && (j + 1
                < st.len() ==> en[j] < st[j + 1]) by {
                if j > i {
                }
            }
        }
    }
}

/// When start and end markers alternate, pairing never fails.
pub proof fn lemma_alternating_pairs(d: Seq<char>)
    requires
        alternating(start_positions(d), end_positions(d)),
    ensures
        pairing_error(d) is None,
{
    lemma_misorder_alternating(start_positions(d), end_positions(d), 0);
}

/// When the marker counts differ, pairing fails, and the error names the
/// side that is short: more starts than ends is a missing end, more ends
/// than starts a missing start.
pub proof fn lemma_count_mismatch(d: Seq<char>)
    requires
        start_positions(d).len() != end_positions(d).len(),
    ensures
        start_positions(d).len() > end_positions(d).len() ==> pairing_error(d) == Some(
            CodeBlockParseError::MissingBlockEnd,
        ),
        start_positions(d).len() < end_positions(d).len() ==> pairing_error(d) == Some(
            CodeBlockParseError::MissingBlockStart,
        ),
{
}

/// One script block of a document: where its markers stand and the source
/// between them.
pub struct LuaBlockMarker<'a> {
    pub start_position: usize,
    pub end_position: usize,
    pub data: &'a str,
}

/// `v` lists the blocks of `d` in order: the positions of both markers of
/// each, and its source.
pub open spec fn found_blocks(d: Seq<char>, v: Seq<LuaBlockMarker>) -> bool {
    &&& v.len() == start_positions(d).len()
    &&& forall|i: int|
        0 <= i < v.len() ==> {
            &&& (#[trigger] v[i]).start_position == start_positions(d)[i]
            &&& v[i].end_position == end_positions(d)[i]
            &&& v[i].data@ == block_source(d, i)
        }
}

/// The characters of `s`, in order.
pub fn chars_of(s: &str) -> (r: Vec<char>)
    ensures
        r@ == s@,
{
    let mut v: Vec<char> = Vec::new();
    for c in it: s.chars()
        invariant
            v@ == it.seq().take(it.index() as int),
    {
        v.push(c);
    }
    assert(v@ =~= s@);
    v
}

/// Whether `m` stands in `s` at position `i`.
fn matches_at(s: &Vec<char>, m: &Vec<char>, i: usize) -> (r: bool)
    requires
        i + m@.len() <= s@.len(),
    ensures
        r == occurs_at(s@, m@, i as int),
{
    let n = s.len();
    let mut j: usize = 0;
    while j < m.len()
        invariant
            n == s@.len(),
            j <= m@.len(),
            i + m@.len() <= s@.len(),
            forall|k: int| 0 <= k < j ==> s@[i + k] == m@[k],
        decreases m@.len() - j,
    {
        if s[i + j] != m[j] {
            assert(s@.subrange(i as int, i + m@.len())[j as int] != m@[j as int]);
            return false;
        }
        j = j + 1;
    }
    assert(s@.subrange(i as int, i + m@.len()) =~= m@);
    true
}

/// Every position of `m` in `s`, ascending, matches not overlapping.
pub fn find_all(s: &Vec<char>, m: &Vec<char>) -> (r: Vec<usize>)
    requires
        m@.len() > 0,
    ensures
        r@.len() == matches_from(s@, m@, 0).len(),
        forall|k: int| 0 <= k < r@.len() ==> r@[k] as int == matches_from(s@, m@, 0)[k],
{
    let mut r: Vec<usize> = Vec::new();
    let mut i: usize = 0;
    while i <= s.len() && m.len() <= s.len() - i
        invariant
            m@.len() > 0,
            i <= s@.len(),
            r@.len() + matches_from(s@, m@, i as int).len() == matches_from(s@, m@, 0).len(),
            forall|k: int| 0 <= k < r@.len() ==> r@[k] as int == matches_from(s@, m@, 0)[k],
            forall|k: int|
                0 <= k < matches_from(s@, m@, i as int).len() ==> matches_from(s@, m@, i as int)[k]
                    == matches_from(s@, m@, 0)[r@.len() + k],
        decreases s@.len() - i,
    {
        if matches_at(s, m, i) {
            let ghost rest = matches_from(s@, m@, i + m@.len());
            assert(matches_from(s@, m@, i as int) == seq![i as int] + rest);
            assert(matches_from(s@, m@, i as int)[0] == i);
            assert forall|k: int| 0 <= k < rest.len() implies rest[k] == matches_from(
                s@,
                m@,
                0,
            )[r@.len() + 1 + k] by {
                assert(rest[k] == matches_from(s@, m@, i as int)[k + 1]);
            }
            r.push(i);
            i = i + m.len();
        } else {
            i = i + 1;
        }
    }
    r
}

/// Finds the blocks of `input` and pairs the i-th start marker with the i-th
/// end marker. Fails when the counts differ, or when the markers do not
/// alternate.
pub fn get_codeblock_positions<'a>(input: &'a str) -> (r: Result<
    Vec<LuaBlockMarker<'a>>,
    CodeBlockParseError,
>)
    ensures
        r matches Err(e) ==> pairing_error(input@) == Some(e),
        r matches Ok(v) ==> {
            &&& pairing_error(input@) is None
            &&& alternating(start_positions(input@), end_positions(input@))
            &&& found_blocks(input@, v@)
        },
{
    let text = chars_of(input);
    let start_m: Vec<char> = vec!['<', 'l', 'u', 'a', '>'];
    let end_m: Vec<char> = vec!['<', '/', 'l', 'u', 'a', '>'];
    assert(start_m@ =~= start_marker());
    assert(end_m@ =~= end_marker());
    let starts = find_all(&text, &start_m);
    let ends = find_all(&text, &end_m);
    if starts.len() > ends.len() {
        return Err(CodeBlockParseError::MissingBlockEnd);
    } else if starts.len() < ends.len() {
        return Err(CodeBlockParseError::MissingBlockStart);
    }
    assert(start_positions(input@).len() == end_positions(input@).len());
    assert(pairing_error(input@) == misorder_from(start_positions(input@), end_positions(input@), 0));
    pair_blocks(input, &starts, &ends)
}

/// Pairs the i-th start with the i-th end, given as many of each.
fn pair_blocks<'a>(input: &'a str, starts: &Vec<usize>, ends: &Vec<usize>) -> (r: Result<
    Vec<LuaBlockMarker<'a>>,
    CodeBlockParseError,
>)
    requires
        starts@.len() == ends@.len() == start_positions(input@).len() == end_positions(
            input@,
        ).len(),
        forall|k: int| 0 <= k < starts@.len() ==> starts@[k] as int == start_positions(input@)[k],
        forall|k: int| 0 <= k < ends@.len() ==> ends@[k] as int == end_positions(input@)[k],
    ensures
        match r {
            Err(e) => misorder_from(start_positions(input@), end_positions(input@), 0) == Some(e),
            Ok(v) => {
                &&& misorder_from(start_positions(input@), end_positions(input@), 0) is None
                &&& alternating(start_positions(input@), end_positions(input@))
                &&& found_blocks(input@, v@)
            },
        },
{
    let ghost st = start_positions(input@);
    let ghost en = end_positions(input@);
    proof {
        lemma_matches_from(input@, start_marker(), 0);
        lemma_matches_from(input@, end_marker(), 0);
    }
    let mut positions: Vec<LuaBlockMarker<'a>> = Vec::new();
    let mut i: usize = 0;
    while i < starts.len()
        invariant
            st == start_positions(input@),
            en == end_positions(input@),
            starts@.len() == ends@.len() == st.len() == en.len(),
            i <= st.len(),
            forall|k: int| 0 <= k < st.len() ==> starts@[k] as int == st[k],
            forall|k: int| 0 <= k < en.len() ==> ends@[k] as int == en[k],
            forall|k: int| 0 <= k < st.len() ==> occurs_at(input@, start_marker(), #[trigger] st[k]),
            forall|k: int| 0 <= k < en.len() ==> occurs_at(input@, end_marker(), #[trigger] en[k]),
            misorder_from(st, en, 0) == misorder_from(st, en, i as int),
            forall|j: int|
                0 <= j < i ==> #[trigger] st[j] < en[j] && (j + 1 < st.len() ==> en[j] < st[j + 1]),
            positions@.len() == i,
            forall|k: int|
                0 <= k < i ==> {
                    &&& (#[trigger] positions@[k]).start_position == st[k]
                    &&& positions@[k].end_position == en[k]
                    &&& positions@[k].data@ == block_source(input@, k)
                },
        decreases st.len() - i,
    {
        let s = starts[i];
        let e = ends[i];
        if e <= s {
            assert(misorder_from(st, en, i as int) == Some(CodeBlockParseError::MissingBlockStart));
            return Err(CodeBlockParseError::MissingBlockStart);
        }
        if i + 1 < starts.len() && starts[i + 1] <= e {
            assert(misorder_from(st, en, i as int) == Some(CodeBlockParseError::MissingBlockEnd));
            return Err(CodeBlockParseError::MissingBlockEnd);
        }
        proof {
            lemma_markers_apart(input@, st[i as int], en[i as int]);
            assert(misorder_from(st, en, i as int) == misorder_from(st, en, i + 1));
            assert(start_marker().len() == 5);
        }
        let data = input.substring_char(s + 5, e);
        assert(data@ == block_source(input@, i as int));
        positions.push(LuaBlockMarker { start_position: s, end_position: e, data });
        assert(positions@[i as int].data@ == block_source(input@, i as int));
        i = i + 1;
    }
    proof {
        lemma_misorder_alternating(st, en, 0);
    }
    Ok(positions)
}

} // verus!

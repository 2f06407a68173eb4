//! Stitching literal text and block results into the rendered document.
use vstd::prelude::*;

use crate::blocks::{
    alternating, block_source, end_marker, end_positions, found_blocks, get_codeblock_positions,
    lemma_alternating_pairs, lemma_markers_apart, lemma_matches_from, misorder_from, occurs_at,
    pairing_error, start_marker, start_positions, LuaBlockMarker,
};
use crate::error::{pairing_run_error, RunError};
use crate::request::{build_request_context, head_complete};
use crate::script::ScriptEnvironment;

verus! {

/// Where the literal text after block `k - 1` of `d` starts (0 for `k == 0`).
pub open spec fn cursor_after(d: Seq<char>, k: int) -> int {
    if k <= 0 {
        0
    } else {
        end_positions(d)[k - 1] + end_marker().len()
    }
}

/// The first `k` blocks of `d` rendered with results `outs`: the literal text
/// before each block, then its result.
pub open spec fn rendered_prefix(d: Seq<char>, outs: Seq<Seq<char>>, k: nat) -> Seq<char>
    decreases k,
{
    if k == 0 {
        seq![]
    } else {
        rendered_prefix(d, outs, (k - 1) as nat) + d.subrange(
            cursor_after(d, k - 1),
            start_positions(d)[k - 1],
        ) + outs[k - 1]
    }
}

/// `d` with block `i` replaced by `outs[i]`, for every block.
pub open spec fn rendered(d: Seq<char>, outs: Seq<Seq<char>>) -> Seq<char> {
    let n = start_positions(d).len();
    rendered_prefix(d, outs, n) + d.subrange(cursor_after(d, n as int), d.len() as int)
}

/// Views of a list of strings.
pub open spec fn string_views(v: Seq<String>) -> Seq<Seq<char>> {
    v.map_values(|s: String| s@)
}

/// The markers of `d` lie in order, and each block's literal text lies in
/// bounds.
proof fn lemma_layout(d: Seq<char>)
    requires
        alternating(start_positions(d), end_positions(d)),
    ensures
        forall|k: int|
            0 <= k <= start_positions(d).len() ==> 0 <= #[trigger] cursor_after(d, k) <= d.len(),
        forall|k: int|
            0 <= k < start_positions(d).len() ==> cursor_after(d, k) <= #[trigger] start_positions(
                d,
            )[k] && start_positions(d)[k] + start_marker().len() <= end_positions(d)[k]
                && end_positions(d)[k] + end_marker().len() <= d.len(),
{
    let st = start_positions(d);
    let en = end_positions(d);
    lemma_matches_from(d, start_marker(), 0);
    lemma_matches_from(d, end_marker(), 0);
    assert forall|k: int| 0 <= k < st.len() implies cursor_after(d, k) <= #[trigger] st[k] && st[k]
        + start_marker().len() <= en[k] && en[k] + end_marker().len() <= d.len() by {
        assert(occurs_at(d, start_marker(), st[k]));
        assert(occurs_at(d, end_marker(), en[k]));
        assert(st[k] < en[k]);
        lemma_markers_apart(d, st[k], en[k]);
        if k > 0 {
            assert(occurs_at(d, end_marker(), en[k - 1]));
            assert(st[k - 1] < en[k - 1]);
            lemma_markers_apart(d, st[k], en[k - 1]);
        }
    }
    assert forall|k: int| 0 <= k <= st.len() implies 0 <= #[trigger] cursor_after(d, k) <= d.len() by {
        if k > 0 {
            assert(occurs_at(d, end_marker(), en[k - 1]));
        }
    }
}

/// A document without markers pairs without error and renders as itself,
/// whatever the block results.
pub proof fn lemma_no_blocks_unchanged(d: Seq<char>, outs: Seq<Seq<char>>)
    requires
        start_positions(d).len() == 0,
        end_positions(d).len() == 0,
    ensures
        pairing_error(d) is None,
        rendered(d, outs) == d,
{
    assert(misorder_from(start_positions(d), end_positions(d), 0) is None);
    assert(rendered(d, outs) =~= d);
}

/// Builds the output from the document, its blocks and one result per block.
pub fn stitch(doc: &str, blocks: &Vec<LuaBlockMarker>, outputs: &Vec<String>) -> (r: String)
    requires
        found_blocks(doc@, blocks@),
        alternating(start_positions(doc@), end_positions(doc@)),
        outputs@.len() == blocks@.len(),
    ensures
        r@ == rendered(doc@, string_views(outputs@)),
{
    let ghost d = doc@;
    let ghost outs = string_views(outputs@);
    proof {
        lemma_layout(d);
    }
    let n = doc.unicode_len();
    let mut out = String::new();
    let mut cursor: usize = 0;
    let mut i: usize = 0;
    while i < blocks.len()
        invariant
            d == doc@,
            n == d.len(),
            outs == string_views(outputs@),
            found_blocks(d, blocks@),
            outputs@.len() == blocks@.len(),
            forall|k: int|
                0 <= k <= start_positions(d).len() ==> 0 <= #[trigger] cursor_after(d, k) <= d.len(),
            forall|k: int|
                0 <= k < start_positions(d).len() ==> cursor_after(d, k)
                    <= #[trigger] start_positions(d)[k] && start_positions(d)[k]
                    + start_marker().len() <= end_positions(d)[k] && end_positions(d)[k]
                    + end_marker().len() <= d.len(),
            i <= blocks@.len(),
            cursor == cursor_after(d, i as int),
            out@ == rendered_prefix(d, outs, i as nat),
        decreases blocks@.len() - i,
    {
        let block = &blocks[i];
        assert(block.start_position == start_positions(d)[i as int]);
        out.append(doc.substring_char(cursor, block.start_position));
        out.append(outputs[i].as_str());
        proof {
            assert(end_marker().len() == 6);
        }
        cursor = block.end_position + 6;
        i = i + 1;
        assert(out@ =~= rendered_prefix(d, outs, i as nat));
    }
    out.append(doc.substring_char(cursor, n));
    out
}

/// The evaluations `evs` ran the sources of `blocks` in order: one each,
/// every one but possibly the last succeeding.
pub open spec fn ran_in_order(
    blocks: Seq<LuaBlockMarker>,
    evs: Seq<(Seq<char>, Option<Seq<char>>)>,
) -> bool {
    &&& evs.len() <= blocks.len()
    &&& forall|i: int| 0 <= i < evs.len() ==> (#[trigger] evs[i]).0 == blocks[i].data@
    &&& forall|i: int| 0 <= i < evs.len() - 1 ==> (#[trigger] evs[i]).1 is Some
}

/// Evaluates the blocks' sources in order in `env`, stopping at the first
/// failure. Succeeds exactly when every block gave text, and then returns
/// those texts in block order.
pub fn evaluate_blocks(env: &mut ScriptEnvironment, blocks: &Vec<LuaBlockMarker>) -> (r: Result<
    Vec<String>,
    RunError,
>)
    ensures
        final(env).bindings() == old(env).bindings(),
        final(env).evaluations().len() >= old(env).evaluations().len(),
        final(env).evaluations().take(old(env).evaluations().len() as int) == old(
            env,
        ).evaluations(),
        ran_in_order(blocks@, final(env).evaluations().skip(old(env).evaluations().len() as int)),
        r matches Ok(outs) ==> {
            let evs = final(env).evaluations().skip(old(env).evaluations().len() as int);
            &&& evs.len() == blocks@.len()
            &&& outs@.len() == blocks@.len()
            &&& forall|i: int| 0 <= i < evs.len() ==> (#[trigger] evs[i]).1 == Some(outs@[i]@)
        },
        r matches Err(e) ==> {
            let evs = final(env).evaluations().skip(old(env).evaluations().len() as int);
            &&& e == RunError::EvaluationFailure
            &&& evs.len() > 0
            &&& evs.last().1 is None
        },
{
    let ghost start = env.evaluations().len();
    let mut outputs: Vec<String> = Vec::new();
    let mut i: usize = 0;
    while i < blocks.len()
        invariant
            i <= blocks@.len(),
            outputs@.len() == i,
            env.bindings() == old(env).bindings(),
            start == old(env).evaluations().len(),
            env.evaluations().len() == start + i,
            env.evaluations().take(start as int) == old(env).evaluations(),
            forall|k: int|
                0 <= k < i ==> (#[trigger] env.evaluations()[start + k]).0 == blocks@[k].data@
                    && env.evaluations()[start + k].1 == Some(outputs@[k]@),
        decreases blocks@.len() - i,
    {
        let ghost before = env.evaluations();
        let text = env.eval(blocks[i].data);
        assert(env.evaluations().take(start as int) =~= before.take(start as int));
        let ghost evs = env.evaluations().skip(start as int);
        match text {
            Ok(t) => {
                outputs.push(t);
            },
            Err(e) => {
                assert forall|k: int| 0 <= k < evs.len() implies (#[trigger] evs[k]).0
                    == blocks@[k].data@ by {
                    assert(evs[k] == env.evaluations()[start + k]);
                }
                assert forall|k: int| 0 <= k < evs.len() - 1 implies (#[trigger] evs[k]).1 is Some by {
                    assert(evs[k] == env.evaluations()[start + k]);
                }
                return Err(e);
            },
        }
        i = i + 1;
    }
    let ghost evs = env.evaluations().skip(start as int);
    assert forall|k: int| 0 <= k < evs.len() implies (#[trigger] evs[k]).0 == blocks@[k].data@
        && evs[k].1 == Some(outputs@[k]@) by {
        assert(evs[k] == env.evaluations()[start + k]);
    }
    Ok(outputs)
}

/// The texts of a run of evaluations that all succeeded.
pub open spec fn texts_of(evs: Seq<(Seq<char>, Option<Seq<char>>)>) -> Seq<Seq<char>> {
    evs.map_values(|e: (Seq<char>, Option<Seq<char>>)| e.1.unwrap())
}

/// Evaluates the blocks of `doc` in document order in `env` and renders the
/// document with their texts. The first failed evaluation ends the run with
/// no output.
pub fn render_blocks(env: &mut ScriptEnvironment, doc: &str, blocks: &Vec<LuaBlockMarker>) -> (r:
    Result<String, RunError>)
    requires
        found_blocks(doc@, blocks@),
        alternating(start_positions(doc@), end_positions(doc@)),
    ensures
        final(env).bindings() == old(env).bindings(),
        final(env).evaluations().take(old(env).evaluations().len() as int) == old(
            env,
        ).evaluations(),
        ({
            let evs = final(env).evaluations().skip(old(env).evaluations().len() as int);
            &&& evs.len() <= blocks@.len()
            &&& forall|i: int| 0 <= i < evs.len() ==> (#[trigger] evs[i]).0 == block_source(doc@, i)
            &&& forall|i: int| 0 <= i < evs.len() - 1 ==> (#[trigger] evs[i]).1 is Some
            &&& r is Ok <==> (evs.len() == blocks@.len() && forall|i: int|
                0 <= i < evs.len() ==> (#[trigger] evs[i]).1 is Some)
            &&& r matches Ok(s) ==> s@ == rendered(doc@, texts_of(evs))
            &&& r matches Err(e) ==> e == RunError::EvaluationFailure && evs.len() > 0
                && evs.last().1 is None
        }),
{
    let ghost start = env.evaluations().len();
    let outputs = evaluate_blocks(env, blocks);
    let ghost evs = env.evaluations().skip(start as int);
    assert forall|i: int| 0 <= i < evs.len() implies (#[trigger] evs[i]).0 == block_source(doc@, i) by {
        assert(evs[i].0 == blocks@[i].data@);
    }
    match outputs {
        Ok(outputs) => {
            let s = stitch(doc, blocks, &outputs);
            assert(texts_of(evs) =~= string_views(outputs@)) by {
                assert forall|i: int| 0 <= i < evs.len() implies #[trigger] texts_of(evs)[i]
                    == string_views(outputs@)[i] by {
                    assert(evs[i].1 == Some(outputs@[i]@));
                }
            }
            Ok(s)
        },
        Err(e) => {
            assert(evs[evs.len() - 1].1 is None);
            Err(e)
        },
    }
}

/// Two runs over one document whose blocks gave the same outcomes render the
/// same text: the output depends on the document and the block results
/// alone, so blocks that give the same text each time give the same output.
pub proof fn lemma_same_outcomes_same_output(
    d: Seq<char>,
    evs1: Seq<(Seq<char>, Option<Seq<char>>)>,
    evs2: Seq<(Seq<char>, Option<Seq<char>>)>,
)
    requires
        evs1.len() == evs2.len(),
        forall|i: int| 0 <= i < evs1.len() ==> (#[trigger] evs1[i]).1 == evs2[i].1,
    ensures
        rendered(d, texts_of(evs1)) == rendered(d, texts_of(evs2)),
{
    assert(texts_of(evs1) =~= texts_of(evs2));
}

/// A request was given, and its head does not parse completely.
pub open spec fn request_rejected(request: Option<String>) -> bool {
    match request {
        Some(q) => !head_complete(q@),
        None => false,
    }
}

/// Renders a document: finds its blocks, builds the request's bindings when
/// a request is given, evaluates the blocks in order in one shared
/// environment, and puts each result in place of its block. Any failure ends
/// the run with no output.
pub fn execute_file(file_str: &str, request_string: Option<String>) -> (r: Result<String, RunError>)
    ensures
        pairing_error(file_str@) matches Some(e) ==> r == Err::<String, RunError>(
            pairing_run_error(e),
        ),
        pairing_error(file_str@) is None && request_rejected(request_string) ==> r == Err::<
            String,
            RunError,
        >(RunError::RequestParseFailure),
        r matches Err(e) ==> (e == RunError::MissingBlockStart || e == RunError::MissingBlockEnd)
            == pairing_error(file_str@) is Some,
        r matches Err(e) ==> (e == RunError::RequestParseFailure) == (pairing_error(file_str@) is None
            && request_rejected(request_string)),
        start_positions(file_str@).len() == 0 && end_positions(file_str@).len() == 0
            && !request_rejected(request_string) ==> (r matches Ok(s) && s@ == file_str@),
        alternating(start_positions(file_str@), end_positions(file_str@)) ==> !(r matches Err(e)
            && (e == RunError::MissingBlockStart || e == RunError::MissingBlockEnd)),
        r matches Ok(s) ==> {
            &&& pairing_error(file_str@) is None
            &&& !request_rejected(request_string)
            &&& exists|outs: Seq<Seq<char>>|
                outs.len() == start_positions(file_str@).len() && s@ == #[trigger] rendered(
                    file_str@,
                    outs,
                )
        },
{
    proof {
        if alternating(start_positions(file_str@), end_positions(file_str@)) {
            lemma_alternating_pairs(file_str@);
        }
    }
    let blocks = match get_codeblock_positions(file_str) {
        Ok(b) => b,
        Err(e) => return Err(RunError::from_pairing(e)),
    };
    let context = match &request_string {
        Some(q) => Some(build_request_context(q.as_str())?),
        None => None,
    };
    if blocks.len() == 0 {
        proof {
            lemma_no_blocks_unchanged(file_str@, seq![]);
        }
        assert(file_str@ =~= rendered(file_str@, seq![]));
        return Ok(file_str.to_owned());
    }
    let mut env = ScriptEnvironment::new(context.as_ref())?;
    let r = render_blocks(&mut env, file_str, &blocks);
    proof {
        let evs = env.evaluations();
        if r is Ok {
            assert(texts_of(evs).len() == start_positions(file_str@).len());
        }
    }
    r
}

} // verus!

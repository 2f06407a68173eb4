use luatemplate::blocks::{get_codeblock_positions, CodeBlockParseError};
use luatemplate::error::RunError;
use luatemplate::render::{evaluate_blocks, execute_file, render_blocks, stitch};
use luatemplate::script::ScriptEnvironment;
use luatemplate::request::build_request_context;

const REQUEST: &str = "GET /foo HTTP/1.1\r\nX-Test: bar\r\n\r\nbody-data";

#[test]
fn no_blocks_output_unchanged() {
    assert_eq!(execute_file("hello world", None), Ok("hello world".to_string()));
    assert_eq!(execute_file("", None), Ok(String::new()));
    assert_eq!(execute_file("a < lua > </ lua>", None), Ok("a < lua > </ lua>".to_string()));
}

#[test]
fn alternating_blocks_are_replaced() {
    let doc = "a<lua>return 'x'</lua>b<lua>return \"yy\"</lua>c";
    assert_eq!(execute_file(doc, None), Ok("axbyyc".to_string()));
}

#[test]
fn block_at_both_ends() {
    assert_eq!(execute_file("<lua>return 'only'</lua>", None), Ok("only".to_string()));
}

#[test]
fn number_result_becomes_text() {
    assert_eq!(execute_file("n=<lua>return 1 + 1</lua>", None), Ok("n=2".to_string()));
}

#[test]
fn multibyte_text_around_blocks() {
    let doc = "é<lua>return 'ß'</lua>ü";
    assert_eq!(execute_file(doc, None), Ok("éßü".to_string()));
}

#[test]
fn more_starts_is_missing_end() {
    assert_eq!(execute_file("<lua><lua>return 'a'</lua>", None), Err(RunError::MissingBlockEnd));
}

#[test]
fn more_ends_is_missing_start() {
    assert_eq!(execute_file("<lua>return 'a'</lua></lua>", None), Err(RunError::MissingBlockStart));
}

#[test]
fn literal_only_unclosed_is_missing_end() {
    assert_eq!(execute_file("hello <lua>", None), Err(RunError::MissingBlockEnd));
}

#[test]
fn end_before_start_is_missing_start() {
    assert_eq!(execute_file("</lua>x<lua>", None), Err(RunError::MissingBlockStart));
}

#[test]
fn nested_blocks_are_missing_end() {
    let doc = "<lua> <lua> </lua> </lua>";
    assert_eq!(execute_file(doc, None), Err(RunError::MissingBlockEnd));
}

#[test]
fn pairing_fails_before_request_parsing() {
    let r = execute_file("<lua>", Some("garbage".to_string()));
    assert_eq!(r, Err(RunError::MissingBlockEnd));
}

#[test]
fn pure_block_is_deterministic() {
    let doc = "x<lua>return string.rep('ab', 3)</lua>y";
    let first = execute_file(doc, None);
    let second = execute_file(doc, None);
    assert_eq!(first, Ok("xabababy".to_string()));
    assert_eq!(first, second);
}

#[test]
fn later_block_sees_earlier_state() {
    let doc = "<lua>shared = 'stored'; return ''</lua>[<lua>return shared</lua>]";
    assert_eq!(execute_file(doc, None), Ok("[stored]".to_string()));
}

#[test]
fn request_bindings_round_trip() {
    let doc = "<lua>return _METHOD .. '|' .. _PATH .. '|' .. _HEADERS['X-Test'] .. '|' .. _BODY</lua>";
    let out = execute_file(doc, Some(REQUEST.to_string())).unwrap();
    assert_eq!(out, "GET|/foo|bar|body-data");
    assert!(out.contains("GET"));
    assert!(out.contains("/foo"));
    assert!(out.contains("bar"));
    assert!(out.contains("body-data"));
}

#[test]
fn request_version_is_bound() {
    let doc = "<lua>return _VERSION</lua>";
    assert_eq!(execute_file(doc, Some(REQUEST.to_string())), Ok("1".to_string()));
}

#[test]
fn repeated_header_last_write_wins() {
    let req = "GET / HTTP/1.1\r\nX-A: first\r\nX-A: second\r\n\r\n";
    let doc = "<lua>return _HEADERS['X-A']</lua>";
    assert_eq!(execute_file(doc, Some(req.to_string())), Ok("second".to_string()));
}

#[test]
fn malformed_request_fails() {
    let r = execute_file("plain", Some("NOT A REQUEST\r\n\r\n".to_string()));
    assert_eq!(r, Err(RunError::RequestParseFailure));
}

#[test]
fn incomplete_request_fails() {
    let r = execute_file("<lua>return 'a'</lua>", Some("GET /foo HTTP/1.1\r\n".to_string()));
    assert_eq!(r, Err(RunError::RequestParseFailure));
}

#[test]
fn request_binding_undefined_without_request() {
    assert_eq!(execute_file("<lua>return _PATH</lua>", None), Err(RunError::EvaluationFailure));
}

#[test]
fn non_text_value_fails() {
    assert_eq!(execute_file("a<lua>return {}</lua>b", None), Err(RunError::EvaluationFailure));
    assert_eq!(execute_file("<lua>return true</lua>", None), Err(RunError::EvaluationFailure));
}

#[test]
fn syntax_error_discards_earlier_output() {
    let doc = "<lua>return 'ok'</lua><lua>return (</lua>";
    assert_eq!(execute_file(doc, None), Err(RunError::EvaluationFailure));
}

#[test]
fn positions_and_sources_of_blocks() {
    let doc = "ab<lua>x</lua>c<lua></lua>";
    let blocks = get_codeblock_positions(doc).ok().unwrap();
    assert_eq!(blocks.len(), 2);
    assert_eq!((blocks[0].start_position, blocks[0].end_position, blocks[0].data), (2, 8, "x"));
    assert_eq!((blocks[1].start_position, blocks[1].end_position, blocks[1].data), (15, 20, ""));
}

#[test]
fn positions_count_characters() {
    let blocks = get_codeblock_positions("éé<lua>ü</lua>").ok().unwrap();
    assert_eq!((blocks[0].start_position, blocks[0].end_position, blocks[0].data), (2, 8, "ü"));
}

#[test]
fn pairing_errors_and_messages() {
    assert_eq!(get_codeblock_positions("<lua>").err(), Some(CodeBlockParseError::MissingBlockEnd));
    assert_eq!(get_codeblock_positions("</lua>").err(), Some(CodeBlockParseError::MissingBlockStart));
    assert_eq!(CodeBlockParseError::MissingBlockStart.message(), "Missing code block start");
    assert_eq!(CodeBlockParseError::MissingBlockEnd.message(), "Missing code block end");
    assert_eq!(RunError::from_pairing(CodeBlockParseError::MissingBlockEnd), RunError::MissingBlockEnd);
    assert_eq!(RunError::EvaluationFailure.message(), "Script evaluation failed");
    assert_eq!(RunError::RequestParseFailure.message(), "Malformed or incomplete request");
}

#[test]
fn stitch_with_given_results() {
    let doc = "1<lua>a</lua>2<lua>b</lua>3";
    let blocks = get_codeblock_positions(doc).ok().unwrap();
    let outs = vec!["X".to_string(), "".to_string()];
    assert_eq!(stitch(doc, &blocks, &outs), "1X23");
}

#[test]
fn request_context_fields() {
    let c = build_request_context(REQUEST).ok().unwrap();
    assert_eq!(c.method, "GET");
    assert_eq!(c.path, "/foo");
    assert_eq!(c.version, 1);
    assert_eq!(c.headers, vec![("X-Test".to_string(), "bar".to_string())]);
    assert_eq!(c.body, "body-data");
}

#[test]
fn request_context_lossy_header_value() {
    let c = build_request_context("GET / HTTP/1.0\r\nX-U: caf\u{e9}\r\n\r\n").ok().unwrap();
    assert_eq!(c.version, 0);
    assert_eq!(c.headers[0].1, "caf\u{e9}");
    assert_eq!(c.body, "");
}

#[test]
fn request_context_errors() {
    assert!(build_request_context("GET /foo HTTP/1.1\r\n").is_err());
    assert!(build_request_context("\u{0}\r\n\r\n").is_err());
}

#[test]
fn expression_block_without_return() {
    assert_eq!(execute_file("[<lua>'a' .. 'b'</lua>]", None), Ok("[ab]".to_string()));
}

#[test]
fn malformed_request_fails_without_blocks_too() {
    assert_eq!(execute_file("", Some("GET".to_string())), Err(RunError::RequestParseFailure));
    assert_eq!(execute_file("text", Some(REQUEST.to_string())), Ok("text".to_string()));
}

#[test]
fn environment_binds_request_fields() {
    let c = build_request_context(REQUEST).ok().unwrap();
    let mut env = ScriptEnvironment::new(Some(&c)).ok().unwrap();
    let out = env.eval("_METHOD .. ' ' .. _PATH .. ' ' .. _VERSION .. ' ' .. _HEADERS['X-Test'] .. ' ' .. _BODY");
    assert_eq!(out, Ok("GET /foo 1 bar body-data".to_string()));
}

#[test]
fn environment_without_request_has_no_bindings() {
    let mut env = ScriptEnvironment::new(None).ok().unwrap();
    assert_eq!(env.eval("_BODY"), Err(RunError::EvaluationFailure));
    assert_eq!(env.eval("'plain'"), Ok("plain".to_string()));
}

#[test]
fn evaluate_blocks_stops_at_first_failure() {
    let doc = "<lua>n = 1; return 'a'</lua><lua>{}</lua><lua>n = 2; return 'c'</lua>";
    let blocks = get_codeblock_positions(doc).ok().unwrap();
    let mut env = ScriptEnvironment::new(None).ok().unwrap();
    assert_eq!(evaluate_blocks(&mut env, &blocks), Err(RunError::EvaluationFailure));
    assert_eq!(env.eval("n"), Ok("1".to_string()));
}

#[test]
fn render_blocks_in_shared_environment() {
    let doc = "A<lua>'ok'</lua>B<lua>k = 'v'; return k</lua>C";
    let blocks = get_codeblock_positions(doc).ok().unwrap();
    let mut env = ScriptEnvironment::new(None).ok().unwrap();
    assert_eq!(render_blocks(&mut env, doc, &blocks), Ok("AokBvC".to_string()));
    assert_eq!(env.eval("k"), Ok("v".to_string()));
}

#[test]
fn failed_second_block_gives_no_partial_output() {
    assert_eq!(execute_file("A<lua>'ok'</lua>B<lua>{}</lua>C", None), Err(RunError::EvaluationFailure));
}

#[test]
fn repeated_header_in_context_keeps_order() {
    let c = build_request_context("GET / HTTP/1.1\r\nX-A: 1\r\nX-A: 2\r\n\r\n").ok().unwrap();
    assert_eq!(c.headers, vec![("X-A".to_string(), "1".to_string()), ("X-A".to_string(), "2".to_string())]);
    let doc = "<lua>_HEADERS['X-A']</lua>";
    assert_eq!(execute_file(doc, Some("GET / HTTP/1.1\r\nX-A: 1\r\nX-A: 2\r\n\r\n".to_string())), Ok("2".to_string()));
}

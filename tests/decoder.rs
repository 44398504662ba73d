use codebrief::decoder::{parse_google_api_response, StreamDecoder};

#[test]
fn test_parse_google_api_response() {
    let response = r#"data: {"id":"chatcmpl-123","object":"chat.completion.chunk","choices":[{"index":0,"delta":{"content":"こんにちは"},"finish_reason":null}]}"#;
    let result = parse_google_api_response(response);
    assert_eq!(result, "こんにちは");
}

#[test]
fn test_parse_google_api_response_raw() {
    let response = "This is a raw response";
    let result = parse_google_api_response(response);
    assert_eq!(result, "This is a raw response");
}

#[test]
fn test_parse_google_api_response_empty() {
    let json_data = "";
    let result = parse_google_api_response(json_data);
    assert_eq!(result, "");
}

#[test]
fn test_parse_google_api_response_multiple_chunks() {
    let response = r#"data: {"id":"chatcmpl-1","object":"chat.completion.chunk","choices":[{"index":0,"delta":{"content":"He"},"finish_reason":null}]}
data: {"id":"chatcmpl-2","object":"chat.completion.chunk","choices":[{"index":0,"delta":{"content":"ll"},"finish_reason":null}]}
data: {"id":"chatcmpl-3","object":"chat.completion.chunk","choices":[{"index":0,"delta":{"content":"o"},"finish_reason":null}]}
data: {"id":"chatcmpl-4","object":"chat.completion.chunk","choices":[{"index":0,"delta":{},"finish_reason":"stop"}]}
data: [DONE]"#;
    let result = parse_google_api_response(response);
    assert_eq!(result, "Hello");
}

fn decode_fragments(fragments: &[&[u8]]) -> String {
    let mut d = StreamDecoder::new();
    let mut out = String::new();
    for f in fragments {
        out.push_str(&d.feed(f));
    }
    out.push_str(&d.finish());
    out
}

#[test]
fn fragments_split_mid_line_and_mid_string() {
    let out = decode_fragments(&[
        b"data: {\"choices\":[{\"delta\":{\"content\":\"He",
        b"llo\"}}]}\n",
        b"data: [DONE]\n",
    ]);
    assert_eq!(out, "Hello");
}

#[test]
fn fragment_text_is_emitted_when_its_line_completes() {
    let mut d = StreamDecoder::new();
    assert_eq!(d.feed(b"data: {\"choices\":[{\"delta\":{\"content\":\"He"), "");
    assert_eq!(d.feed(b"llo\"}}]}\ndata: {\"choices\":[{\"delta\":{\"content\":\"!\"}}]}\n"), "Hello!");
    assert_eq!(d.finish(), "");
}

#[test]
fn stop_line_emits_no_text() {
    let line: &[u8] = b"data: {\"choices\":[{\"delta\":{},\"finish_reason\":\"stop\"}]}\n";
    assert_eq!(decode_fragments(&[line]), "");
    let stop_with_content = "data: {\"choices\":[{\"delta\":{\"content\":\"x\"},\"finish_reason\":\"stop\"}]}";
    assert_eq!(parse_google_api_response(stop_with_content), "");
}

#[test]
fn raw_text_comes_back_unchanged() {
    let text = "Internal error\nplease retry later\n";
    assert_eq!(parse_google_api_response(text), text);
    assert_eq!(decode_fragments(&[b"Internal error\nplease ", b"retry later\n"]), text);
    assert_eq!(decode_fragments(&[b"no newline at all"]), "no newline at all");
}

#[test]
fn split_inside_a_multibyte_character() {
    let line = "data: {\"choices\":[{\"delta\":{\"content\":\"こんにちは\"}}]}\n".as_bytes();
    let cut = line.iter().position(|&b| b >= 0x80).unwrap() + 1;
    assert_eq!(decode_fragments(&[&line[..cut], &line[cut..]]), "こんにちは");
}

#[test]
fn partial_last_line_is_dropped_when_the_stream_closes() {
    let out = decode_fragments(&[
        b"data: {\"choices\":[{\"delta\":{\"content\":\"A\"}}]}\n",
        b"data: {\"choices\":[{\"delta\":{\"content\":\"B\"}}]}",
    ]);
    assert_eq!(out, "A");
}

#[test]
fn malformed_and_blank_lines_are_skipped() {
    let body = "data: {not json\n\n   \r\nevent: ping\ndata: {\"choices\":[{\"delta\":{\"content\":\"ok\"}}]}\r\ndata: [DONE]\n";
    assert_eq!(parse_google_api_response(body), "ok");
}

#[test]
fn refusal_and_role_markers() {
    let body = "data: {\"choices\":[{\"delta\":{\"role\":\"assistant\",\"content\":\"\"}}]}\ndata: {\"choices\":[{\"delta\":{\"refusal\":\"cannot help\"}}]}\ndata: {\"choices\":[{\"delta\":{\"content\":\"x\",\"refusal\":null}}]}\n";
    assert_eq!(parse_google_api_response(body), "[role: assistant][refusal: cannot help]x");
}

#[test]
fn single_json_document_yields_candidate_text() {
    let doc = r#"{"candidates":[{"content":{"parts":[{"text":"Hi there"}],"role":"model"}}]}"#;
    assert_eq!(parse_google_api_response(doc), "Hi there");
    assert_eq!(decode_fragments(&[doc.as_bytes()]), "Hi there");
}

#[test]
fn single_json_document_without_candidates_yields_nothing() {
    assert_eq!(parse_google_api_response(r#"{"candidates":[]}"#), "");
    assert_eq!(parse_google_api_response(r#"{"error":{"code":400}}"#), "");
}

#[test]
fn invalid_utf8_input_yields_nothing() {
    assert_eq!(decode_fragments(&[&[0xff, 0xfe, b'a']]), "");
}

#[test]
fn refusal_marker_shows_values_that_are_not_strings() {
    let body = "data: {\"choices\":[{\"delta\":{\"refusal\":{\"reason\":\"policy\"}}}]}\ndata: {\"choices\":[{\"delta\":{\"refusal\":[1,true]}}]}\ndata: {\"choices\":[{\"delta\":{\"refusal\":3}}]}\n";
    assert_eq!(
        parse_google_api_response(body),
        "[refusal: {\"reason\":\"policy\"}][refusal: [1,true]][refusal: 3]"
    );
}

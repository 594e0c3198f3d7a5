use noya::llm::anthropic;
use noya::llm::client::{
    failure_message, normalize_models, on_stream_closed, on_stream_reply, LlmClient, StreamReply,
};
use noya::llm::protocol::{
    encode_calls, AssistantMessage, CalledFunction, ChatMessage, ChatResponse, Choice,
    FunctionDefinition, LlmEvent, ToolCall, ToolDefinition, Usage,
};
use noya::llm::stream::{
    decode_sse_data, find_event_boundary, response_from_complete, SseReader, SseStep,
    StreamAccumulator, StreamChoice, StreamChunk, StreamDelta, StreamFunction, StreamToolCall,
};

fn call(id: &str, name: &str, arguments: &str) -> ToolCall {
    ToolCall {
        id: id.to_string(),
        call_type: "function".to_string(),
        function: CalledFunction {
            name: name.to_string(),
            arguments: arguments.to_string(),
        },
    }
}

fn message(role: &str, content: &str) -> ChatMessage {
    ChatMessage::plain(role, content.to_string())
}

fn owned(value: &serde_json::Value) -> Option<String> {
    value.as_str().map(str::to_string)
}

fn number(value: &serde_json::Value, names: &[&str]) -> u64 {
    names
        .iter()
        .find_map(|name| value[*name].as_u64())
        .unwrap_or(0)
}

fn usage(text: &str) -> Usage {
    let value: serde_json::Value = serde_json::from_str(text).unwrap();
    Usage {
        input_tokens: number(&value, &["input_tokens", "prompt_tokens"]),
        output_tokens: number(&value, &["output_tokens", "completion_tokens"]),
        total_tokens: number(&value, &["total_tokens"]),
        cache_read_tokens: number(&value, &["cache_read_tokens"]),
        cache_write_tokens: number(&value, &["cache_write_tokens"]),
    }
}

fn chunk(text: &str) -> StreamChunk {
    let value: serde_json::Value = serde_json::from_str(text).unwrap();
    let choices = value["choices"]
        .as_array()
        .unwrap()
        .iter()
        .map(|choice| {
            let delta = &choice["delta"];
            let calls = delta["tool_calls"].as_array().cloned().unwrap_or_default();
            StreamChoice {
                delta: StreamDelta {
                    content: owned(&delta["content"]),
                    reasoning_content: owned(&delta["reasoning_content"]),
                    tool_calls: calls
                        .iter()
                        .map(|call| StreamToolCall {
                            index: call["index"].as_u64().unwrap() as usize,
                            id: owned(&call["id"]),
                            function: call.get("function").map(|function| StreamFunction {
                                name: owned(&function["name"]),
                                arguments: owned(&function["arguments"]),
                            }),
                        })
                        .collect(),
                },
            }
        })
        .collect();
    StreamChunk {
        choices,
        usage: None,
    }
}

#[test]
fn request_moves_system_and_tool_messages_into_anthropic_blocks() {
    let mut assistant = message("assistant", "");
    assistant.tool_calls = Some(vec![call(
        "call-1",
        "read_file",
        "{\"path\":\"README.md\"}",
    )]);
    let mut tool = message("tool", "contents");
    tool.tool_call_id = Some("call-1".to_string());
    let request = anthropic::request(
        "sonnet-5",
        &vec![message("system", "Be concise"), assistant, tool],
        &Vec::new(),
        0.2f32.to_bits(),
        true,
        true,
    );
    assert_eq!(request.system.as_deref(), Some("Be concise"));
    assert_eq!(request.messages[0].role, "assistant");
    assert!(matches!(
        &request.messages[0].content[0],
        anthropic::Block::ToolUse { id, name, input }
            if id == "call-1" && name == "read_file" && input == "{\"path\":\"README.md\"}"
    ));
    assert!(matches!(
        &request.messages[1].content[0],
        anthropic::Block::ToolResult { tool_use_id, content }
            if tool_use_id == "call-1" && content == "contents"
    ));
    assert_eq!(request.temperature_bits, Some(0.2f32.to_bits()));
    assert!(request.stream);
}

#[test]
fn tools_and_texts_become_native() {
    let tools = vec![ToolDefinition {
        tool_type: "function".to_string(),
        function: FunctionDefinition {
            name: "f".to_string(),
            description: "d".to_string(),
            parameters: "{}".to_string(),
        },
    }];
    let request = anthropic::request(
        "m",
        &vec![message("system", "a"), message("system", "b"), message("user", "hi")],
        &tools,
        1,
        false,
        false,
    );
    assert_eq!(request.system.as_deref(), Some("a\n\nb"));
    assert_eq!(request.messages.len(), 1);
    assert!(matches!(
        &request.messages[0].content[0],
        anthropic::Block::Text { text } if text == "hi"
    ));
    assert_eq!(request.tools[0].name, "f");
    assert_eq!(request.tools[0].input_schema, "{}");
    assert_eq!(request.temperature_bits, None);
    assert_eq!(request.max_tokens, 8192);
}

#[test]
fn response_maps_text_and_tool_use() {
    let response = anthropic::response(vec![
        anthropic::ContentBlock::Text {
            text: "I will read it.".to_string(),
        },
        anthropic::ContentBlock::ToolUse {
            id: "call-1".to_string(),
            name: "read_file".to_string(),
            input: "{\"path\":\"README.md\"}".to_string(),
        },
    ]);
    let message = &response.choices[0].message;
    assert_eq!(message.content.as_deref(), Some("I will read it."));
    assert_eq!(message.tool_calls[0].function.name, "read_file");
    assert_eq!(
        message.tool_calls[0].function.arguments,
        "{\"path\":\"README.md\"}"
    );
}

#[test]
fn stream_maps_text_and_tool_input_deltas() {
    let mut accumulator = anthropic::StreamAccumulator::default();
    let mut events = Vec::new();
    let mut ignored = Vec::new();
    assert!(!accumulator
        .apply(
            r#"{"type":"content_block_delta","index":0,"delta":{"type":"text_delta","text":"Hi"}}"#,
            &mut events,
        )
        .unwrap());
    accumulator
        .apply(
            r#"{"type":"content_block_start","index":1,"content_block":{"type":"tool_use","id":"call-1","name":"read_file","input":{}}}"#,
            &mut ignored,
        )
        .unwrap();
    accumulator
        .apply(
            r#"{"type":"content_block_delta","index":1,"delta":{"type":"input_json_delta","partial_json":"{\"path\":\"README.md\"}"}}"#,
            &mut ignored,
        )
        .unwrap();
    assert!(accumulator
        .apply(r#"{"type":"message_stop"}"#, &mut ignored)
        .unwrap());
    let response = accumulator.finish().unwrap();
    assert_eq!(events, vec![LlmEvent::TextDelta("Hi".to_string())]);
    assert_eq!(response.tool_calls[0].function.name, "read_file");
    assert_eq!(
        response.tool_calls[0].function.arguments,
        r#"{"path":"README.md"}"#
    );
}

#[test]
fn an_event_that_is_no_json_is_refused() {
    let mut accumulator = anthropic::StreamAccumulator::default();
    let mut events = Vec::new();
    assert_eq!(
        accumulator.apply("{", &mut events).unwrap_err().message,
        "decode Anthropic SSE event"
    );
}

#[test]
fn complete_stream_emits_text_and_assembles_tool_calls() {
    let body = [
        "data: {\"choices\":[{\"delta\":{\"reasoning_content\":\"considering\"},\"finish_reason\":null}]}\n\n",
        "data: {\"choices\":[{\"delta\":{\"content\":\"Hel\"},\"finish_reason\":null}]}\n\n",
        "data: {\"choices\":[{\"delta\":{\"content\":\"lo\"},\"finish_reason\":null}]}\n\n",
        "data: {\"choices\":[{\"delta\":{\"tool_calls\":[{\"index\":0,\"id\":\"call-1\",\"function\":{\"name\":\"read_file\",\"arguments\":\"{\\\"pa\"}}]},\"finish_reason\":null}]}\n\n",
        "data: {\"choices\":[{\"delta\":{\"tool_calls\":[{\"index\":0,\"function\":{\"arguments\":\"th\\\":\\\"README.md\\\"}\"}}]},\"finish_reason\":\"tool_calls\"}]}\n\n",
        "data: [DONE]\n\n",
    ]
    .concat();
    for size in [1, 7, 4096] {
        let mut reader = SseReader::new();
        let mut accumulator = StreamAccumulator::default();
        let mut events = Vec::new();
        let mut done = false;
        for part in body.as_bytes().chunks(size) {
            reader.feed(part);
            loop {
                match reader.next().unwrap() {
                    SseStep::Wait => break,
                    SseStep::Data(data) => accumulator.apply(chunk(&data), &mut events),
                    SseStep::Done => {
                        done = true;
                        break;
                    }
                }
            }
        }
        assert!(done);
        let response = accumulator.finish().unwrap();
        assert_eq!(
            events,
            vec![
                LlmEvent::TextDelta("Hel".to_string()),
                LlmEvent::TextDelta("lo".to_string()),
            ]
        );
        assert_eq!(response.content, "Hello");
        assert_eq!(response.reasoning_content.as_deref(), Some("considering"));
        assert_eq!(response.tool_calls.len(), 1);
        assert_eq!(response.tool_calls[0].id, "call-1");
        assert_eq!(response.tool_calls[0].call_type, "function");
        assert_eq!(response.tool_calls[0].function.name, "read_file");
        assert_eq!(
            response.tool_calls[0].function.arguments,
            "{\"path\":\"README.md\"}"
        );
    }
}

#[test]
fn complete_stream_reports_an_interrupted_stream() {
    let mut reader = SseReader::new();
    reader.feed(b"data: {\"choices\":[{\"delta\":{\"content\":\"partial\"}}]}\n\n");
    assert!(matches!(reader.next().unwrap(), SseStep::Data(_)));
    let mut done = false;
    while let SseStep::Done | SseStep::Data(_) = reader.next().unwrap() {
        done = true;
    }
    let error = on_stream_closed(done).unwrap_err();
    assert!(error.message.contains("before [DONE]"));
    reader.feed(b"data: [DONE]\n\n");
    assert!(matches!(reader.next().unwrap(), SseStep::Done));
    assert!(on_stream_closed(true).is_ok());
}

#[test]
fn an_unfinished_stream_waits() {
    let mut reader = SseReader::new();
    reader.feed(b"data: {\"choices\":[{\"delta\":{\"content\":\"partial\"}}]}\n\n");
    assert!(matches!(reader.next().unwrap(), SseStep::Data(_)));
    assert!(matches!(reader.next().unwrap(), SseStep::Wait));
    reader.feed(b": comment\r\n\r\ndata: a\ndata:b\n\n");
    assert!(matches!(reader.next().unwrap(), SseStep::Data(data) if data == "a\nb"));
    reader.feed(b"data: \xff\n\n");
    assert_eq!(
        reader.next().unwrap_err().message,
        "decode SSE event as UTF-8"
    );
}

#[test]
fn events_are_cut_at_empty_lines() {
    assert_eq!(find_event_boundary(&b"ab\n\ncd".to_vec()), Some((2, 2)));
    assert_eq!(find_event_boundary(&b"ab\r\n\r\ncd".to_vec()), Some((2, 4)));
    assert_eq!(find_event_boundary(&b"ab\n".to_vec()), None);
    assert_eq!(
        decode_sse_data("data: é".as_bytes()).unwrap(),
        Some("é".to_string())
    );
    assert_eq!(decode_sse_data(b"event: x").unwrap(), None);
}

#[test]
fn list_models_reads_and_normalizes_openai_compatible_catalog() {
    let names = vec![
        "z-model".to_string(),
        "a-model".to_string(),
        "z-model".to_string(),
    ];
    assert_eq!(normalize_models(names).unwrap(), ["a-model", "z-model"]);
    assert_eq!(
        normalize_models(vec![" ".to_string()]).unwrap_err().message,
        "LLM model discovery returned no model IDs"
    );
}

#[test]
fn missing_api_key_fails_at_request_time_without_contacting_the_endpoint() {
    let client = LlmClient::new("http://127.0.0.1:1", "", "test-model");
    let error = client.ensure_api_key().unwrap_err().message;
    assert!(error.contains("no API credential configured"));
}

#[test]
fn a_client_knows_its_addresses() {
    let client = LlmClient::new("http://h/v1//", "k", "m");
    assert_eq!(client.models_url(), "http://h/v1/models");
    assert_eq!(client.completions_url(), "http://h/v1/chat/completions");
    assert_eq!(client.messages_url(), "http://h/v1/messages");
    assert_eq!(client.model_id(), "m");
    assert_eq!(client.api_key(), "k");
    assert_eq!(client.sent_temperature(5), Some(5));
    assert_eq!(
        client.clone().with_custom_temperature(false).sent_temperature(5),
        None
    );
    assert!(client.ensure_api_key().is_ok());
}

#[test]
fn complete_stream_falls_back_when_model_service_rejects_streaming() {
    assert_eq!(on_stream_reply(400, None), StreamReply::Fallback);
    assert_eq!(on_stream_reply(500, None), StreamReply::Failed);
    assert_eq!(
        on_stream_reply(200, Some("text/event-stream; charset=utf-8".to_string())),
        StreamReply::Events
    );
    assert_eq!(
        on_stream_reply(200, Some("application/json".to_string())),
        StreamReply::Whole
    );
    let mut events = Vec::new();
    let response = response_from_complete(
        ChatResponse {
            choices: vec![Choice {
                message: AssistantMessage {
                    content: Some("fallback".to_string()),
                    reasoning_content: None,
                    tool_calls: Vec::new(),
                },
            }],
            usage: None,
        },
        "LLM returned no choices",
        &mut events,
    )
    .unwrap();
    assert_eq!(response.content, "fallback");
    assert_eq!(events, vec![LlmEvent::TextDelta("fallback".to_string())]);
    let mut none = Vec::new();
    assert_eq!(
        response_from_complete(
            ChatResponse {
                choices: Vec::new(),
                usage: None
            },
            "LLM returned no choices",
            &mut none
        )
        .unwrap_err()
        .message,
        "LLM returned no choices"
    );
    assert_eq!(
        failure_message("LLM request failed", "500 X", "boom"),
        "LLM request failed (500 X): boom"
    );
}

#[test]
fn calls_are_assembled_by_their_place() {
    let mut accumulator = StreamAccumulator::default();
    let mut events = Vec::new();
    accumulator.apply(
        chunk("{\"choices\":[{\"delta\":{\"tool_calls\":[{\"index\":1,\"id\":\"b\",\"function\":{\"name\":\"g\",\"arguments\":\"{}\"}},{\"index\":0,\"id\":\"a\",\"function\":{\"name\":\"f\",\"arguments\":\"{}\"}}]}}]}"),
        &mut events,
    );
    let response = accumulator.finish().unwrap();
    assert_eq!(response.tool_calls[0].id, "a");
    assert_eq!(response.tool_calls[1].id, "b");
    assert_eq!(response.reasoning_content, None);
}

#[test]
fn calls_are_written_as_json() {
    let text = encode_calls(&vec![call("i\"d", "f", "{\"a\":1}")]);
    let value: serde_json::Value = serde_json::from_str(&text).unwrap();
    assert_eq!(value[0]["id"], "i\"d");
    assert_eq!(value[0]["type"], "function");
    assert_eq!(value[0]["function"]["arguments"], "{\"a\":1}");
}

#[test]
fn usage_accepts_openai_and_anthropic_field_names() {
    let openai = usage("{\"prompt_tokens\":12,\"completion_tokens\":8,\"total_tokens\":20}");
    assert_eq!(openai.normalized().input_tokens, 12);
    assert_eq!(openai.output_tokens, 8);

    let anthropic = usage("{\"input_tokens\":30,\"output_tokens\":10}");
    assert_eq!(anthropic.normalized().total_tokens, 40);
    let mut sum = openai;
    sum.add_assign(anthropic);
    assert_eq!(sum.input_tokens, 42);
    assert_eq!(sum.output_tokens, 18);
}

fn part(index: usize, id: Option<&str>, name: Option<&str>, arguments: &str) -> StreamToolCall {
    StreamToolCall {
        index,
        id: id.map(str::to_string),
        function: Some(StreamFunction {
            name: name.map(str::to_string),
            arguments: Some(arguments.to_string()),
        }),
    }
}

fn piece(content: &str, tool_calls: Vec<StreamToolCall>) -> StreamChunk {
    StreamChunk {
        choices: vec![StreamChoice {
            delta: StreamDelta {
                content: Some(content.to_string()),
                reasoning_content: None,
                tool_calls,
            },
        }],
        usage: None,
    }
}

#[test]
fn a_stream_is_put_together() {
    let mut accumulator = StreamAccumulator::default();
    let mut events = Vec::new();
    let chunks = vec![
        piece("Let ", vec![part(7, Some(""), Some("git"), "{\"a\"")]),
        piece("", vec![part(2, Some("two"), Some("list_dir"), "{}")]),
        piece("me", vec![part(7, Some("seven"), Some("_diff"), ":1")]),
        piece(" see", vec![part(7, Some("other"), None, "}")]),
    ];
    for chunk in chunks {
        accumulator.apply(chunk, &mut events);
    }
    assert_eq!(
        events,
        vec![
            LlmEvent::TextDelta("Let ".to_string()),
            LlmEvent::TextDelta("me".to_string()),
            LlmEvent::TextDelta(" see".to_string()),
        ]
    );
    let answer = accumulator.finish().unwrap();
    assert_eq!(answer.content, "Let me see");
    assert_eq!(
        encode_calls(&answer.tool_calls),
        encode_calls(&vec![
            call("two", "list_dir", "{}"),
            call("seven", "git_diff", "{\"a\":1}"),
        ])
    );
}

#[test]
fn a_streamed_call_needs_an_identifier_and_a_name() {
    let mut accumulator = StreamAccumulator::default();
    accumulator.apply(piece("", vec![part(0, None, Some("x"), "")]), &mut Vec::new());
    assert_eq!(
        accumulator.finish().unwrap_err().message,
        "streamed tool call is missing id"
    );
    let mut accumulator = StreamAccumulator::default();
    accumulator.apply(piece("", vec![part(0, Some("x"), None, "")]), &mut Vec::new());
    assert_eq!(
        accumulator.finish().unwrap_err().message,
        "streamed tool call is missing function name"
    );
}

//! Requests, responses, prompts, vocabularies and file lists.

use moe_infer::chars::{chars_of, parse_number};
use moe_infer::chat::{begin_generation, chat_prompt, chat_request, chat_request_from, Message};
use moe_infer::engine::{
    architecture, cache_text, engine_request, engine_text, expert_file_name, first_new_token,
    model_text, pipeline_mode, record_telemetry, set_record_telemetry, unknown_engine_text,
    DynEngine, EngineKind, ModelSize, PipelineMode, TelemetrySwitch,
};
use moe_infer::error::MoEError;
use moe_infer::http::{
    body_length, content_length, escape, load_error, models_response, push_head_byte,
    read_request, request_body, request_id, request_route, server_error, sse_delta, sse_done,
    HeadStatus, Route, CORS_RESPONSE, EMPTY_PROMPT_RESPONSE, HEALTH_RESPONSE,
    INVALID_JSON_RESPONSE, MISSING_MODEL_RESPONSE, NOT_FOUND_RESPONSE, SSE_HEADERS,
};
use moe_infer::hub::{
    files_to_check, index_from, is_cached, meta_files, read_index, shard_files, shards_for,
    weight_map, weight_map_from,
};
use moe_infer::text::{join, push_decimal, push_decimal2, same_text};
use moe_infer::vocab::{order_texts, TokenEntry, Vocabulary};

fn texts(v: &[&str]) -> Vec<String> {
    v.iter().map(|s| s.to_string()).collect()
}

#[test]
fn numbers_in_decimal() {
    for n in [0u64, 7, 9, 10, 42, 100, 65535, u64::MAX] {
        let mut s = String::new();
        push_decimal(&mut s, n);
        assert_eq!(s, format!("{}", n));
        let c = chars_of(&s);
        let end = c.len();
        assert_eq!(parse_number(&c, 0, end), Some(n as usize));
    }
    for n in [0u64, 7, 10, 39, 123] {
        let mut s = String::new();
        push_decimal2(&mut s, n);
        assert_eq!(s, format!("{:02}", n));
    }
    let c = chars_of("18446744073709551616");
    assert_eq!(parse_number(&c, 0, 20), None);
    let c = chars_of("+5");
    assert_eq!(parse_number(&c, 0, 2), "+5".parse::<usize>().ok());
    for bad in ["", "+", "-1", "1 ", "1a"] {
        let c = chars_of(bad);
        let end = c.len();
        assert_eq!(parse_number(&c, 0, end), bad.parse::<usize>().ok());
    }
}

#[test]
fn texts_compared_and_joined() {
    assert!(same_text("", ""));
    assert!(same_text("añb", "añb"));
    assert!(!same_text("ab", "abc"));
    assert!(!same_text("ab", "aB"));
    assert_eq!(join(&texts(&["a", "b", "c"]), ", "), "a, b, c");
    assert_eq!(join(&texts(&[]), ", "), "");
}

#[test]
fn head_ends_at_the_empty_line() {
    let mut buf = Vec::new();
    let head = b"GET / HTTP/1.1\r\n\r\n";
    for (i, &b) in head.iter().enumerate() {
        let want = if i + 1 == head.len() { HeadStatus::Complete } else { HeadStatus::More };
        assert_eq!(push_head_byte(&mut buf, b), want);
    }
    assert_eq!(buf, head.to_vec());
    let mut big = vec![b'x'; 1024 * 1024];
    assert_eq!(push_head_byte(&mut big, b'x'), HeadStatus::TooLarge);
    let mut fits = vec![b'x'; 1024 * 1024 - 1];
    assert_eq!(push_head_byte(&mut fits, b'x'), HeadStatus::More);
}

#[test]
fn length_of_the_body() {
    assert_eq!(content_length("POST / HTTP/1.1\r\nContent-Length: 12\r\n\r\n"), Some(12));
    assert_eq!(content_length("POST / HTTP/1.1\r\nCONTENT-LENGTH:7\r\n\r\n"), Some(7));
    assert_eq!(content_length("POST / HTTP/1.1\r\nHost: x\r\n\r\n"), None);
    assert_eq!(content_length("A\r\ncontent-length: x\r\ncontent-length: 3\r\n\r\n"), None);
    assert_eq!(content_length("A\r\ncontent-length: 3: 4\r\n\r\n"), Some(3));
    assert_eq!(content_length("A\r\nx-content-length: 3\r\n\r\n"), None);
    assert_eq!(body_length(b"P\r\nContent-Length: 9\r\n\r\n"), Some(9));
    // A byte that is no UTF-8 becomes one replacement character and hides nothing behind it.
    assert_eq!(body_length(b"P\xFF\r\nContent-Length: 9\r\n\r\n"), Some(9));
}

#[test]
fn routes() {
    assert_eq!(request_route("OPTIONS /anything HTTP/1.1\r\n"), Route::Options);
    assert_eq!(request_route("GET /health HTTP/1.1\r\n"), Route::Health);
    assert_eq!(request_route("GET /v1/models HTTP/1.1\r\n"), Route::Models);
    assert_eq!(request_route("POST /v1/chat/completions HTTP/1.1\r\n"), Route::Chat);
    assert_eq!(request_route("GET /v1/chat/completions HTTP/1.1\r\n"), Route::NotFound);
    assert_eq!(request_route("POST /health HTTP/1.1\r\n"), Route::NotFound);
    assert_eq!(request_route(""), Route::NotFound);
    assert_eq!(request_route("\r\nGET /health"), Route::NotFound);
    assert_eq!(request_route("  GET \t /health"), Route::Health);
}

#[test]
fn request_bytes_are_read_as_text() {
    let (text, route) = read_request(b"GET /health HTTP/1.1\r\n\r\n\xC3\xBC\xFF");
    assert_eq!(route, Route::Health);
    assert_eq!(text, "GET /health HTTP/1.1\r\n\r\n\u{FC}\u{FFFD}");
    assert_eq!(request_body(&text), "\u{FC}\u{FFFD}");
    assert_eq!(request_body("no empty line"), "no empty line");
    assert_eq!(request_body("a\r\n\r\nb\r\n\r\nc"), "b\r\n\r\nc");
}

#[test]
fn fixed_responses() {
    assert!(SSE_HEADERS.starts_with("HTTP/1.1 200 OK\r\nContent-Type: text/event-stream\r\n"));
    assert!(SSE_HEADERS.ends_with("\r\n\r\n"));
    assert!(CORS_RESPONSE.starts_with("HTTP/1.1 204 No Content\r\n"));
    assert!(HEALTH_RESPONSE.ends_with("\r\n\r\n{\"status\":\"ok\"}\n"));
    assert!(NOT_FOUND_RESPONSE.starts_with("HTTP/1.1 404 Not Found\r\n"));
    assert!(INVALID_JSON_RESPONSE.ends_with("{\"error\":\"invalid json\"}\n"));
    assert!(MISSING_MODEL_RESPONSE.ends_with("{\"error\":\"missing model\"}\n"));
    assert!(EMPTY_PROMPT_RESPONSE.ends_with("{\"error\":\"empty prompt\"}\n"));
}

#[test]
fn built_responses() {
    assert_eq!(
        server_error("oh"),
        "HTTP/1.1 500 Internal Server Error\r\nContent-Type: application/json\r\nConnection: close\r\n\r\n{\"error\":\"oh\"}\n"
    );
    assert_eq!(
        load_error("m", "gone"),
        "HTTP/1.1 500 Internal Server Error\r\nContent-Type: application/json\r\nConnection: close\r\n\r\n{\"error\":\"failed to load model m: gone\"}\n"
    );
    assert_eq!(
        models_response(&texts(&["a", "b"])),
        "HTTP/1.1 200 OK\r\nContent-Type: application/json\r\nConnection: close\r\n\r\n{\"object\":\"list\",\"data\":[{\"id\":\"a\",\"object\":\"model\"},{\"id\":\"b\",\"object\":\"model\"}]}\n"
    );
    assert!(models_response(&texts(&[])).ends_with("{\"object\":\"list\",\"data\":[]}\n"));
    assert_eq!(request_id(0), "req-0");
    assert_eq!(request_id(17), "req-17");
}

#[test]
fn escaped_texts_read_back() {
    let t = "a\\b\"c\nd\re\tf/\u{1F600}\\n";
    let e = escape(t);
    assert_eq!(e, "a\\\\b\\\"c\\nd\\re\\tf/\u{1F600}\\\\n");
    assert!(!e.contains('\n') && !e.contains('\r') && !e.contains('\t'));
    let quoted = format!("\"{}\"", e);
    let back: String = serde_json::from_str(&quoted).unwrap();
    assert_eq!(back, t);
}

#[test]
fn events() {
    assert_eq!(
        sse_delta("req-1", "hi\n"),
        "data: {\"id\":\"req-1\",\"object\":\"chat.completion.chunk\",\"choices\":[{\"index\":0,\"delta\":{\"content\":\"hi\\n\"},\"finish_reason\":null}]}\n\n"
    );
    assert_eq!(
        sse_done("req-1"),
        "data: {\"id\":\"req-1\",\"object\":\"chat.completion.chunk\",\"choices\":[{\"index\":0,\"delta\":{},\"finish_reason\":\"stop\"}]}\n\ndata: [DONE]\n\n"
    );
}

#[test]
fn chat_requests() {
    let ok = "POST /v1/chat/completions HTTP/1.1\r\n\r\n{\"model\":\"m\",\"max_tokens\":5,\"messages\":[{\"role\":\"system\",\"content\":\"s\"},{\"content\":\"c\"},{\"role\":3},7]}";
    let q = chat_request(ok).ok().unwrap();
    assert_eq!(q.model, "m");
    assert_eq!(q.max_tokens, 5);
    let got: Vec<(String, String)> =
        q.messages.iter().map(|m| (m.role.clone(), m.content.clone())).collect();
    let want = [("system", "s"), ("user", "c"), ("user", ""), ("user", "")];
    let want: Vec<(String, String)> =
        want.iter().map(|(a, b)| (a.to_string(), b.to_string())).collect();
    assert_eq!(got, want);

    let bare = chat_request("x\r\n\r\n{\"model\":\"m\"}").ok().unwrap();
    assert_eq!(bare.max_tokens, 1024);
    assert!(bare.messages.is_empty());

    assert_eq!(chat_request("x\r\n\r\n{").err(), Some(INVALID_JSON_RESPONSE));
    assert_eq!(chat_request("x\r\n\r\n{}").err(), Some(MISSING_MODEL_RESPONSE));
    assert_eq!(chat_request("x\r\n\r\n{\"model\":\"\"}").err(), Some(MISSING_MODEL_RESPONSE));
    assert_eq!(chat_request("x\r\n\r\n{\"model\":1}").err(), Some(MISSING_MODEL_RESPONSE));
    assert_eq!(chat_request("x\r\n\r\n[]").err(), Some(MISSING_MODEL_RESPONSE));
    // A limit that is no whole number without sign counts as none.
    let odd = chat_request("x\r\n\r\n{\"model\":\"m\",\"max_tokens\":-1}").ok().unwrap();
    assert_eq!(odd.max_tokens, 1024);
}

#[test]
fn chat_request_fields() {
    let r = chat_request_from(Some("bad".to_string()), Some("m".to_string()), None, None);
    assert_eq!(r.err(), Some(INVALID_JSON_RESPONSE));
    let r = chat_request_from(None, None, Some(3), None);
    assert_eq!(r.err(), Some(MISSING_MODEL_RESPONSE));
    let fields = vec![(None, Some("x".to_string()))];
    let r = chat_request_from(None, Some("m".to_string()), Some(3), Some(fields)).ok().unwrap();
    assert_eq!((r.model.as_str(), r.max_tokens), ("m", 3));
    assert_eq!((r.messages[0].role.as_str(), r.messages[0].content.as_str()), ("user", "x"));
}

#[test]
fn prompts() {
    let m = Message { role: "user".to_string(), content: "Hello, how are you?".to_string() };
    let p = chat_prompt(&vec![m]);
    assert_eq!(
        p,
        "<|im_start|>system\nYou are a helpful assistant. /think<|im_end|>\n<|im_start|>user\nHello, how are you?<|im_end|>\n<|im_start|>assistant\n<think>\n"
    );
    assert_eq!(
        chat_prompt(&Vec::new()),
        "<|im_start|>system\nYou are a helpful assistant. /think<|im_end|>\n<|im_start|>assistant\n<think>\n"
    );
}

#[test]
fn empty_prompts_are_refused() {
    assert_eq!(begin_generation(0, 10).err(), Some(EMPTY_PROMPT_RESPONSE));
    let g = begin_generation(3, 10).ok().unwrap();
    assert_eq!((g.prompt_len, g.max_tokens, g.pos, g.gen_count), (3, 10, 0, 0));
}

fn entry(id: u32, bytes: &[u8]) -> TokenEntry {
    TokenEntry { id, str_bytes: bytes.to_vec() }
}

#[test]
fn vocabulary_in_order_of_numbers() {
    let v = Vocabulary::from_tokenizer(
        &vec![entry(2, b"c"), entry(0, b"a")],
        &vec![entry(3, b"<think>"), entry(1, b"b\xFF")],
    );
    assert_eq!(v.tokens, texts(&["a", "b\u{FFFD}", "c", "<think>"]));
    assert_eq!(v.decode(0), "a");
    assert_eq!(v.decode(1), "b\u{FFFD}");
    assert_eq!(v.decode(3), "<think>");
    assert_eq!(v.decode(4), "<unk>");
}

#[test]
fn equal_numbers_keep_their_order() {
    let r = order_texts(
        &vec![5, 1, 5, 0, 1],
        &texts(&["first five", "first one", "second five", "zero", "second one"]),
    );
    assert_eq!(r, texts(&["zero", "first one", "second one", "first five", "second five"]));
    assert_eq!(order_texts(&Vec::new(), &Vec::new()), texts(&[]));
}

#[test]
fn weight_maps() {
    let index = "{\"metadata\":{\"total_size\":1},\"weight_map\":{\"b.weight\":\"two\",\"a.weight\":\"one\",\"c\":3}}";
    let m = weight_map(index).ok().unwrap();
    let mut names: Vec<(String, String)> = m.clone();
    names.sort();
    let want = [("a.weight", "one"), ("b.weight", "two"), ("c", "")];
    let want: Vec<(String, String)> =
        want.iter().map(|(a, b)| (a.to_string(), b.to_string())).collect();
    assert_eq!(names, want);
    assert_eq!(weight_map("{}").err().unwrap(), "no weight_map in index");
    assert_eq!(weight_map("{\"weight_map\":[]}").err().unwrap(), "no weight_map in index");
    let bad = weight_map("{").err().unwrap();
    let said = serde_json::from_str::<serde_json::Value>("{").err().unwrap().to_string();
    assert_eq!(bad, format!("parse index: {}", said));
    let r = weight_map_from(Some("x".to_string()), None);
    assert_eq!(r.err().unwrap(), "parse index: x");
    let r = weight_map_from(None, Some(vec![("t".to_string(), None)]));
    assert_eq!(r.ok().unwrap(), vec![("t".to_string(), String::new())]);
}

#[test]
fn shards_once_and_in_order() {
    let m: Vec<(String, String)> = [("a", "s2"), ("b", "s10"), ("c", "s2"), ("d", "s1"), ("e", "z")]
        .iter()
        .map(|(a, b)| (a.to_string(), b.to_string()))
        .collect();
    assert_eq!(
        shards_for(&m, &texts(&["a", "c", "missing", "b", "d", "a"])),
        texts(&["s1", "s10", "s2"])
    );
    assert!(shards_for(&m, &texts(&[])).is_empty());
    assert!(shards_for(&m, &texts(&["nothing"])).is_empty());
}

#[test]
fn only_weight_files() {
    let r = shard_files(&texts(&[
        "config.json",
        "model-2.safetensors",
        "model.safetensors.index.json",
        "model-1.safetensors",
        ".safetensors",
        "safetensors",
    ]));
    assert_eq!(r, texts(&["model-2.safetensors", "model-1.safetensors", ".safetensors"]));
}

#[test]
fn indexes() {
    let text = "{\"metadata\":{\"total_size\": 10, \"by\":\"x\", \"l\":[1, null]},\"weight_map\":{\"a\":\"f\"}}";
    let index = read_index(text).ok().unwrap();
    assert_eq!(index.weight_map, vec![("a".to_string(), "f".to_string())]);
    let mut metadata = index.metadata;
    metadata.sort();
    let want = [("by", "\"x\""), ("l", "[1,null]"), ("total_size", "10")];
    assert_eq!(metadata.len(), want.len());
    for (got, want) in metadata.iter().zip(want.iter()) {
        assert_eq!((got.0.as_str(), got.1.as_str()), *want);
    }
    for rest in ["", "\"metadata\":[],", "\"metadata\":null,"] {
        let index = read_index(&format!("{{{}\"weight_map\":{{}}}}", rest)).ok().unwrap();
        assert!(index.metadata.is_empty() && index.weight_map.is_empty());
    }
    assert_eq!(read_index("{\"metadata\":{}}").err().unwrap(), "no weight_map in index");
    assert_eq!(read_index("{").err().unwrap(), weight_map("{").err().unwrap());

    let pair = ("n".to_string(), "1".to_string());
    let index = index_from(Ok(Vec::new()), Some(vec![pair.clone()])).ok().unwrap();
    assert_eq!(index.metadata, vec![pair]);
    assert_eq!(index_from(Err("e".to_string()), None).err().unwrap(), "e");
    assert_eq!(meta_files(), texts(&["config.json", "model.safetensors.index.json"]));
}

#[test]
fn cached_models() {
    let listed = texts(&["config.json", "b.safetensors", "a.safetensors"]);
    let wanted = texts(&["model.safetensors.index.json", "b.safetensors", "a.safetensors"]);
    assert_eq!(files_to_check(&listed), wanted);
    let all = Some(listed);
    assert!(is_cached(&all, &wanted));
    assert!(!is_cached(&None, &wanted));
    for i in 0..wanted.len() {
        let mut some = wanted.clone();
        some.remove(i);
        assert!(!is_cached(&all, &some));
    }
    // The index is wanted even where there are no weights.
    assert!(!is_cached(&Some(Vec::new()), &Vec::new()));
    assert!(is_cached(&Some(Vec::new()), &texts(&["model.safetensors.index.json"])));
}

#[test]
fn telemetry_switch() {
    let mut s = TelemetrySwitch::new();
    assert!(!record_telemetry(&s));
    set_record_telemetry(&mut s, true);
    assert!(record_telemetry(&s));
    set_record_telemetry(&mut s, false);
    assert!(!record_telemetry(&s));
}

#[test]
fn engines_by_name() {
    let full = "Qwen3_5MoeForConditionalGeneration";
    let stripped = "Qwen3_5MoeForConditionalGeneration_Stripped";
    let names = [
        ("Qwen35MoEFused4bit", EngineKind::Fused4bit),
        ("Qwen35MoEFused4bitExp1", EngineKind::Fused4bitExp1),
        ("Qwen35MoEFused4bitExp2", EngineKind::Fused4bitExp2),
        ("Qwen35MoEFused4bitExp3", EngineKind::Fused4bitExp3),
    ];
    for (name, kind) in names {
        let e = DynEngine::new(name, full).ok().unwrap();
        assert_eq!((e.kind, e.size), (kind, ModelSize::Full));
        let e = DynEngine::new(name, stripped).ok().unwrap();
        assert_eq!((e.kind, e.size), (kind, ModelSize::Stripped));
    }
    let say = "Unknown engine: engine_type=\"a\\\"b\", arch=\"\"";
    match DynEngine::new("a\"b", "") {
        Err(MoEError::Config(t)) => assert_eq!(t, say),
        _ => panic!("refused"),
    }
    // Given the two texts as they are to be shown.
    assert_eq!(unknown_engine_text("\"a\\\"b\"", "\"\""), say);
    assert!(DynEngine::new("Qwen35MoEFused4bit", "Llama").is_err());
}

#[test]
fn first_architecture() {
    let s = |t: &str| Some(t.to_string());
    assert_eq!(architecture(&None), "");
    assert_eq!(architecture(&Some(vec![])), "");
    assert_eq!(architecture(&Some(vec![None, s("b")])), "");
    assert_eq!(architecture(&Some(vec![s("a"), s("b")])), "a");
}

#[test]
fn pipeline_modes() {
    let modes = [
        ("Cpu", PipelineMode::Cpu),
        ("CpuOnly", PipelineMode::Cpu),
        ("FusedExp", PipelineMode::FusedExp),
        ("FusedWoods", PipelineMode::FusedWoods),
    ];
    for (name, mode) in modes {
        assert_eq!(pipeline_mode(name).ok(), Some(mode));
        assert_eq!(engine_request(name, 0, 8).ok(), Some((mode, 8)));
        assert_eq!(engine_request(name, 3, 8).ok(), Some((mode, 3)));
        assert_eq!(engine_request(name, 8, 8).ok(), Some((mode, 8)));
    }
    match pipeline_mode("Gpu") {
        Err(MoEError::Config(t)) => assert_eq!(t, "Unknown pipeline mode: Gpu"),
        _ => panic!("refused"),
    }
    assert_eq!(
        engine_request("Gpu", 0, 8).err().unwrap(),
        "Unknown pipeline_mode: Gpu. Use Cpu|FusedExp|FusedWoods"
    );
    assert_eq!(
        engine_request("Cpu", 9, 8).err().unwrap(),
        "k (9) must not exceed model's num_experts_per_tok (8)"
    );
}

#[test]
fn new_tokens_of_a_prompt() {
    assert_eq!(first_new_token(0, 5), 0);
    assert_eq!(first_new_token(3, 5), 3);
    assert_eq!(first_new_token(5, 5), 0);
    assert_eq!(first_new_token(9, 5), 0);
}

#[test]
fn descriptions() {
    assert_eq!(model_text(40, 2048), "Model(40 layers, hidden=2048)");
    assert_eq!(engine_text(40, 2048), "Engine(loaded: 40 layers, hidden=2048)");
    assert_eq!(cache_text(12), "Cache(pos=12)");
    assert_eq!(expert_file_name(3), "layer_03.bin");
    assert_eq!(expert_file_name(39), "layer_39.bin");
    assert_eq!(expert_file_name(123), "layer_123.bin");
}

use mnesphere::ai::{
    build_system_prompt, chat_preflight, chat_url, reject_message, test_outcome, truncate, AiEvent,
    SseDecoder,
};

fn texts(evs: &[AiEvent]) -> Vec<String> {
    evs.iter()
        .map(|e| match e {
            AiEvent::Delta { text } => format!("delta:{text}"),
            AiEvent::Reasoning { text } => format!("think:{text}"),
            AiEvent::Done { chars } => format!("done:{chars}"),
            AiEvent::Error { message } => format!("error:{message}"),
        })
        .collect()
}

#[test]
fn truncation_marks_the_cut() {
    assert_eq!(truncate("abcdef", 3), "abc…");
    assert_eq!(truncate("abc", 3), "abc");
    assert_eq!(truncate("你好世界", 2), "你好…");
}

#[test]
fn preflight_needs_key_and_url() {
    assert_eq!(chat_preflight("  ", "http://x"), Some("还没有配置 API Key。打开「设置 → AI」填入后重试。".to_string()));
    assert_eq!(chat_preflight("k", " "), Some("base_url 不能为空。".to_string()));
    assert_eq!(chat_preflight("k", "http://x"), None);
}

#[test]
fn endpoint_drops_trailing_slashes() {
    assert_eq!(chat_url(" https://api.example.com/v1// "), "https://api.example.com/v1/chat/completions");
    assert_eq!(chat_url("http://localhost:11434/v1"), "http://localhost:11434/v1/chat/completions");
}

#[test]
fn refusals_carry_a_hint() {
    assert_eq!(
        reject_message("401 Unauthorized", 401, "bad key"),
        "请求被拒绝 401 Unauthorized\n（看起来是 API Key 不对或者没权限）\nbad key"
    );
    assert_eq!(
        reject_message("404 Not Found", 404, ""),
        "请求被拒绝 404 Not Found\n（模型名或 base_url 可能写错了）\n"
    );
    assert_eq!(reject_message("429 Too Many Requests", 429, "x"), "请求被拒绝 429 Too Many Requests\n（触发限流了，缓一缓）\nx");
    let long = "z".repeat(700);
    let m = reject_message("500 Internal Server Error", 500, &long);
    assert_eq!(m, format!("请求被拒绝 500 Internal Server Error\n{}…", "z".repeat(600)));
}

#[test]
fn prompt_attaches_readable_notes_up_to_the_limit() {
    let refs = vec!["a.md".to_string(), "b.md".to_string(), "c.md".to_string()];
    let texts = vec![Some("AAA".to_string()), None, Some("CCC".to_string())];
    let (sys, used) = build_system_prompt("BASE", 5, &refs, &texts);
    assert_eq!(used, vec!["a.md".to_string(), "c.md".to_string()]);
    assert_eq!(
        sys,
        "BASE\n\n# 上下文笔记\n下面是用户挂载过来的笔记原文，请把它当作事实依据，不要凭空编造其中没有的内容。\n\n--- 笔记「a.md」开始 ---\nAAA\n--- 笔记「a.md」结束 ---\n\n--- 笔记「c.md」开始 ---\nCCC\n--- 笔记「c.md」结束 ---\n"
    );
    let (_, used1) = build_system_prompt("BASE", 1, &refs, &texts);
    assert_eq!(used1, vec!["a.md".to_string()]);
    let (plain, none) = build_system_prompt("BASE", 5, &vec![], &vec![]);
    assert_eq!(plain, "BASE");
    assert!(none.is_empty());
}

#[test]
fn long_notes_are_cut() {
    let refs = vec!["long.md".to_string()];
    let texts = vec![Some("字".repeat(6001))];
    let (sys, _) = build_system_prompt("", 3, &refs, &texts);
    assert!(sys.contains(&format!("{}\n…（已截断）\n--- 笔记「long.md」结束 ---\n", "字".repeat(6000))));
    assert!(!sys.contains(&"字".repeat(6001)));
}

#[test]
fn stream_reads_complete_lines_only() {
    let mut d = SseDecoder::new();
    let (e1, stop1) = d.feed(b": keep-alive\n\ndata: {\"choices\":[{\"delta\":{\"content\":\"He");
    assert!(e1.is_empty() && !stop1);
    let (e2, stop2) = d.feed(b"llo\"}}]}\ndata: {\"choices\":[{\"delta\":{\"reasoning_content\":\"hmm\",\"content\":\"\xe4\xbd\xa0\"}}]}\n");
    assert!(!stop2);
    assert_eq!(texts(&e2), vec!["delta:Hello", "think:hmm", "delta:你"]);
    let (e3, _) = d.feed(b"data: [DONE]\n");
    assert_eq!(texts(&e3), vec!["done:6"]);
    assert!(d.finish().is_none());
}

#[test]
fn a_character_split_between_chunks_survives() {
    let mut d = SseDecoder::new();
    let (e1, _) = d.feed(b"data: {\"choices\":[{\"delta\":{\"content\":\"\xe5\xa5");
    assert!(e1.is_empty());
    let (e2, _) = d.feed(b"\xbd\"}}]}\n");
    assert_eq!(texts(&e2), vec!["delta:好"]);
    match d.finish() {
        Some(AiEvent::Done { chars }) => assert_eq!(chars, 1),
        other => panic!("{other:?}"),
    }
}

#[test]
fn an_error_object_stops_the_stream() {
    let mut d = SseDecoder::new();
    let (e, stop) = d.feed(b"data: {\"error\":{\"message\":\"quota\"}}\ndata: {\"choices\":[{\"delta\":{\"content\":\"x\"}}]}\n");
    assert!(stop);
    assert_eq!(texts(&e), vec!["error:quota"]);
    let mut d2 = SseDecoder::new();
    let (e2, stop2) = d2.feed(b"data: {\"error\":42}\n");
    assert!(stop2);
    assert_eq!(texts(&e2), vec!["error:未知错误"]);
}

#[test]
fn lines_that_are_not_data_are_skipped() {
    let mut d = SseDecoder::new();
    let (e, stop) = d.feed(b"event: ping\ndata: not json\ndata: {\"choices\":[]}\n");
    assert!(!stop);
    assert!(e.is_empty());
    match d.finish() {
        Some(AiEvent::Done { chars }) => assert_eq!(chars, 0),
        other => panic!("{other:?}"),
    }
}

#[test]
fn connection_test_reports() {
    assert_eq!(test_outcome("m", false, "401 Unauthorized", "no"), Err("401 Unauthorized: no".to_string()));
    assert_eq!(
        test_outcome("deepseek-chat", true, "200 OK", "{\"choices\":[{\"message\":{\"content\":\" 可用 \"}}]}"),
        Ok("模型 deepseek-chat 响应正常：可用".to_string())
    );
    assert_eq!(test_outcome("m", true, "200 OK", "{}"), Ok("模型 m 响应正常：(无内容)".to_string()));
    let bad = test_outcome("m", true, "200 OK", "not json").unwrap_err();
    assert!(bad.starts_with("响应解析失败："));
    assert!(bad.len() > "响应解析失败：".len());
}

#[test]
fn byte_by_byte_reads_like_one_chunk() {
    let stream: &[u8] = b"data: {\"choices\":[{\"delta\":{\"content\":\"\xe4\xbd\xa0\xe5\xa5\xbd\"}}]}\n: ping\ndata: {\"choices\":[{\"delta\":{\"reasoning_content\":\"r\",\"content\":\"!\"}}]}\ndata: [DONE]\n";
    let mut whole = SseDecoder::new();
    let (all, stop_all) = whole.feed(stream);
    let mut pieces = SseDecoder::new();
    let mut got = Vec::new();
    let mut stopped = false;
    for b in stream {
        let (evs, stop) = pieces.feed(std::slice::from_ref(b));
        got.extend(evs);
        if stop {
            stopped = true;
            break;
        }
    }
    assert_eq!(texts(&got), texts(&all));
    assert_eq!(stopped, stop_all);
    assert_eq!(texts(&all), vec!["delta:你好", "think:r", "delta:!", "done:3"]);
}

use deepseek_demo::text::is_whitespace;
use deepseek_demo::recall::keyword_pieces;
use deepseek_demo::agent::{
    MAX_CONTEXT_CHARS, MAX_SHORT_HISTORY_MESSAGES, MEMORY_HEADING, SUMMARY_HEADING, SYSTEM_PROMPT,
};
use deepseek_demo::context::SUMMARY_PREFIX;
use deepseek_demo::{
    keywords, summarize_messages, text_message, total_chars, trim_by_chars, AgentState, FunctionCall,
    MemoryConfig, Message, ToolCall,
};

fn new_agent() -> AgentState {
    AgentState::new("agent_sessions/session_1".to_string(), "agent_sessions/session_1/memory.json".to_string())
}

fn contents(messages: &[Message]) -> Vec<String> {
    messages.iter().map(|m| m.content.clone().unwrap_or_default()).collect()
}

#[test]
fn text_message_sets_role_and_content() {
    let m = text_message("user", "你好".to_string());
    assert_eq!(m.role, "user");
    assert_eq!(m.content.as_deref(), Some("你好"));
    assert!(m.tool_calls.is_none());
    assert!(m.tool_call_id.is_none());
}

#[test]
fn total_chars_counts_characters_not_bytes() {
    let mut messages = vec![text_message("user", "你好".to_string()), text_message("assistant", "abc".to_string())];
    messages.push(Message { role: "tool".to_string(), content: None, tool_calls: None, tool_call_id: Some("1".to_string()) });
    assert_eq!(total_chars(&messages), 5);
    assert_eq!(total_chars(&[]), 0);
}

#[test]
fn trim_by_chars_drops_oldest_non_system_first() {
    let mut messages = vec![
        text_message("system", "sys".to_string()),
        text_message("user", "aaaa".to_string()),
        text_message("assistant", "bbbb".to_string()),
        text_message("user", "cc".to_string()),
    ];
    trim_by_chars(&mut messages, 9);
    assert_eq!(contents(&messages), vec!["sys", "bbbb", "cc"]);
    trim_by_chars(&mut messages, 5);
    assert_eq!(contents(&messages), vec!["sys", "cc"]);
    trim_by_chars(&mut messages, 0);
    assert_eq!(contents(&messages), vec!["sys"]);
}

#[test]
fn trim_by_chars_keeps_fitting_messages() {
    let mut messages = vec![text_message("system", "sys".to_string()), text_message("user", "hi".to_string())];
    trim_by_chars(&mut messages, 5);
    assert_eq!(contents(&messages), vec!["sys", "hi"]);
}

#[test]
fn trim_by_chars_with_only_system_messages_drops_the_second() {
    let mut messages = vec![
        text_message("system", "one".to_string()),
        text_message("system", "two".to_string()),
        text_message("system", "three".to_string()),
    ];
    trim_by_chars(&mut messages, 8);
    assert_eq!(contents(&messages), vec!["one", "three"]);
}

#[test]
fn trim_by_chars_may_drop_a_leading_user_message() {
    let mut messages = vec![text_message("user", "first".to_string()), text_message("user", "second".to_string())];
    trim_by_chars(&mut messages, 6);
    assert_eq!(contents(&messages), vec!["second"]);
}

#[test]
fn summarize_messages_formats_lines() {
    let messages = vec![
        text_message("user", "第一行\n第二行".to_string()),
        Message { role: "tool".to_string(), content: None, tool_calls: None, tool_call_id: None },
        text_message("assistant", "ok".to_string()),
    ];
    assert_eq!(summarize_messages(&messages), "较早对话摘要：user: 第一行 第二行 | assistant: ok");
    assert_eq!(summarize_messages(&[]), SUMMARY_PREFIX);
}

#[test]
fn summarize_messages_cuts_long_text_to_120_characters() {
    let long = "字".repeat(121);
    let exact = "x".repeat(120);
    let messages = vec![text_message("user", long), text_message("assistant", exact.clone())];
    let expected = format!("较早对话摘要：user: {}... | assistant: {}", "字".repeat(120), exact);
    assert_eq!(summarize_messages(&messages), expected);
}

#[test]
fn keywords_split_trim_filter_and_lowercase() {
    assert_eq!(keywords("Hello, World! a bc"), vec!["hello", "world", "bc"]);
    assert_eq!(keywords("用户正在学习 AI Agent 开发。"), vec!["用户正在学习", "ai", "agent", "开发"]);
    assert!(keywords("").is_empty());
    assert!(keywords("a, b; c").is_empty());
    assert_eq!(keywords("ÀB1"), vec!["àb1"]);
}

#[test]
fn new_agent_starts_with_default_memories() {
    let agent = new_agent();
    assert_eq!(
        agent.config.long_term_memories,
        vec!["用户正在学习 AI Agent 开发。".to_string(), "用户使用 Rust 和 DeepSeek API 做学习 Demo。".to_string()]
    );
    assert!(agent.summary.is_none());
    assert!(agent.short_history.is_empty());
    assert_eq!(agent.memory_file, "agent_sessions/session_1/memory.json");
    assert!(MemoryConfig::default().long_term_memories.is_empty());
}

#[test]
fn remember_appends_a_memory() {
    let mut agent = new_agent();
    agent.remember("喜欢 Lean".to_string());
    assert_eq!(agent.config.long_term_memories.len(), 3);
    assert_eq!(agent.config.long_term_memories[2], "喜欢 Lean");
}

#[test]
fn search_without_keywords_lists_first_memories() {
    let agent = new_agent();
    assert_eq!(agent.search_long_term_memory("?", 5), vec!["- 用户正在学习 AI Agent 开发。", "- 用户使用 Rust 和 DeepSeek API 做学习 Demo。"]);
    assert_eq!(agent.search_long_term_memory("", 1), vec!["- 用户正在学习 AI Agent 开发。"]);
    assert!(agent.search_long_term_memory("", 0).is_empty());
}

#[test]
fn search_ranks_by_keyword_matches() {
    let mut agent = new_agent();
    agent.config.long_term_memories = vec![
        "likes rust".to_string(),
        "rust and lean proofs".to_string(),
        "coffee".to_string(),
        "lean".to_string(),
    ];
    assert_eq!(agent.search_long_term_memory("Rust Lean", 5), vec!["- rust and lean proofs", "- likes rust", "- lean"]);
    assert_eq!(agent.search_long_term_memory("Rust Lean", 2), vec!["- rust and lean proofs", "- likes rust"]);
    assert!(agent.search_long_term_memory("tea", 5).is_empty());
}

#[test]
fn search_counts_query_terms_found_inside_memory_terms() {
    let mut agent = new_agent();
    agent.config.long_term_memories = vec!["ab".to_string(), "xxabyy cd".to_string()];
    assert_eq!(agent.search_long_term_memory("ab cd ab", 5), vec!["- xxabyy cd", "- ab"]);
}

#[test]
fn search_keeps_stored_order_between_equal_scores() {
    let mut agent = new_agent();
    agent.config.long_term_memories = vec!["zz rust".to_string(), "aa rust".to_string(), "rust".to_string()];
    assert_eq!(agent.search_long_term_memory("rust", 5), vec!["- zz rust", "- aa rust", "- rust"]);
}

#[test]
fn build_messages_without_memories_or_summary() {
    let mut agent = new_agent();
    agent.config.long_term_memories.clear();
    agent.add_user_message("你好".to_string());
    let messages = agent.build_messages("你好");
    assert_eq!(messages.len(), 2);
    assert_eq!(messages[0].role, "system");
    assert_eq!(messages[0].content.as_deref(), Some(SYSTEM_PROMPT));
    assert_eq!(messages[1].role, "user");
    assert_eq!(messages[1].content.as_deref(), Some("你好"));
}

#[test]
fn build_messages_adds_memories_and_summary() {
    let mut agent = new_agent();
    agent.summary = Some("old".to_string());
    agent.add_user_message("讲讲 Rust".to_string());
    let messages = agent.build_messages("讲讲 Rust");
    assert_eq!(messages.len(), 4);
    assert_eq!(
        messages[1].content.as_deref(),
        Some(format!("{}- 用户使用 Rust 和 DeepSeek API 做学习 Demo。", MEMORY_HEADING).as_str())
    );
    assert_eq!(messages[2].content.as_deref(), Some(format!("{}old", SUMMARY_HEADING).as_str()));
    assert_eq!(messages[3].content.as_deref(), Some("讲讲 Rust"));
}

#[test]
fn build_messages_joins_memories_with_line_feeds() {
    let agent = new_agent();
    let messages = agent.build_messages("");
    assert_eq!(
        messages[1].content.as_deref(),
        Some("相关长期记忆：\n- 用户正在学习 AI Agent 开发。\n- 用户使用 Rust 和 DeepSeek API 做学习 Demo。")
    );
}

#[test]
fn build_messages_trims_to_the_character_budget() {
    let mut agent = new_agent();
    agent.config.long_term_memories.clear();
    agent.add_user_message("a".repeat(5000));
    agent.add_assistant_message("b".repeat(5000));
    agent.add_user_message("c".to_string());
    let messages = agent.build_messages("c");
    assert_eq!(messages[0].content.as_deref(), Some(SYSTEM_PROMPT));
    assert_eq!(contents(&messages[1..]), vec!["b".repeat(5000), "c".to_string()]);
    assert!(total_chars(&messages) <= MAX_CONTEXT_CHARS);
}

#[test]
fn build_messages_keeps_the_instructions_when_nothing_fits() {
    let mut agent = new_agent();
    agent.config.long_term_memories.clear();
    agent.add_user_message("x".repeat(9000));
    let messages = agent.build_messages("x");
    assert_eq!(messages.len(), 1);
    assert_eq!(messages[0].content.as_deref(), Some(SYSTEM_PROMPT));
}

#[test]
fn add_assistant_message_folds_old_turns_into_the_summary() {
    let mut agent = new_agent();
    for i in 0..5 {
        agent.add_user_message(format!("q{i}"));
        agent.add_assistant_message(format!("a{i}"));
    }
    assert_eq!(agent.short_history.len(), MAX_SHORT_HISTORY_MESSAGES);
    assert!(agent.summary.is_none());
    agent.add_user_message("q5".to_string());
    assert_eq!(agent.short_history.len(), 11);
    agent.add_assistant_message("a5".to_string());
    assert_eq!(agent.short_history.len(), MAX_SHORT_HISTORY_MESSAGES);
    assert_eq!(agent.summary.as_deref(), Some("较早对话摘要：user: q0 | assistant: a0"));
    assert_eq!(agent.short_history[0].content.as_deref(), Some("q1"));
    assert_eq!(agent.short_history[9].content.as_deref(), Some("a5"));
    agent.add_user_message("q6".to_string());
    agent.add_assistant_message("a6".to_string());
    assert_eq!(
        agent.summary.as_deref(),
        Some("较早对话摘要：user: q0 | assistant: a0\n较早对话摘要：user: q1 | assistant: a1")
    );
}

#[test]
fn trim_short_history_leaves_short_histories_alone() {
    let mut agent = new_agent();
    agent.add_user_message("q".to_string());
    agent.trim_short_history();
    assert_eq!(agent.short_history.len(), 1);
    assert!(agent.summary.is_none());
}

#[test]
fn clear_short_memory_keeps_long_term_memories() {
    let mut agent = new_agent();
    agent.add_user_message("q".to_string());
    agent.summary = Some("s".to_string());
    agent.clear_short_memory();
    assert!(agent.short_history.is_empty());
    assert!(agent.summary.is_none());
    assert_eq!(agent.config.long_term_memories.len(), 2);
}

#[test]
fn message_copy_keeps_tool_calls() {
    let m = Message {
        role: "assistant".to_string(),
        content: None,
        tool_calls: Some(vec![ToolCall {
            id: "call_1".to_string(),
            call_type: "function".to_string(),
            function: FunctionCall { name: "f".to_string(), arguments: "{}".to_string() },
        }]),
        tool_call_id: None,
    };
    let c = m.copy();
    let calls = c.tool_calls.unwrap();
    assert_eq!(calls.len(), 1);
    assert_eq!(calls[0].id, "call_1");
    assert_eq!(calls[0].function.arguments, "{}");
}

#[test]
fn memory_report_lists_everything_under_headings() {
    let mut agent = new_agent();
    let report = agent.memory_report();
    assert_eq!(
        report,
        vec![
            "\n=== 会话目录 ===",
            "agent_sessions/session_1",
            "\n=== 长期记忆 memory.json ===",
            "- 用户正在学习 AI Agent 开发。",
            "- 用户使用 Rust 和 DeepSeek API 做学习 Demo。",
            "\n=== 历史摘要 summary ===",
            "(暂无)",
            "\n=== 短期记忆 short_history ===",
            "(暂无)",
        ]
    );
    agent.summary = Some("s".to_string());
    agent.add_user_message("q".to_string());
    agent.short_history.push(Message { role: "tool".to_string(), content: None, tool_calls: None, tool_call_id: None });
    let report = agent.memory_report();
    assert_eq!(report[6], "s");
    assert_eq!(&report[8..], &["user: q".to_string(), "tool: ".to_string()]);
}

#[test]
fn discard_last_message_drops_the_newest() {
    let mut agent = new_agent();
    agent.discard_last_message();
    assert!(agent.short_history.is_empty());
    agent.add_user_message("a".to_string());
    agent.add_user_message("b".to_string());
    agent.discard_last_message();
    assert_eq!(contents(&agent.short_history), vec!["a"]);
}

#[test]
fn keyword_pieces_split_where_marked() {
    let text: Vec<char> = "Ab-CD e".chars().collect();
    let word = vec![true, true, false, true, true, false, true];
    assert_eq!(keyword_pieces(&text, &word), vec!["Ab", "CD"]);
    let word = vec![true, true, true, true, true, true, true];
    assert_eq!(keyword_pieces(&text, &word), vec!["Ab-CD e"]);
    assert!(keyword_pieces(&Vec::new(), &Vec::new()).is_empty());
}

#[test]
fn is_whitespace_matches_std() {
    for u in 0u32..0x3100 {
        if let Some(c) = char::from_u32(u) {
            assert_eq!(is_whitespace(c), c.is_whitespace(), "{u:#x}");
        }
    }
}

#[test]
fn total_chars_adds_over_concatenation() {
    let a = vec![text_message("user", "ab".to_string())];
    let b = vec![text_message("user", "你好吗".to_string())];
    assert_eq!(total_chars(&[a.clone(), b.clone()].concat()), total_chars(&a) + total_chars(&b));
}

#[test]
fn smaller_budget_keeps_a_subsequence() {
    let base = vec![
        text_message("system", "s".to_string()),
        text_message("user", "aaaa".to_string()),
        text_message("assistant", "bbb".to_string()),
        text_message("user", "cc".to_string()),
    ];
    let mut small = base.clone();
    let mut large = base.clone();
    trim_by_chars(&mut small, 3);
    trim_by_chars(&mut large, 6);
    assert_eq!(contents(&large), vec!["s", "bbb", "cc"]);
    assert_eq!(contents(&small), vec!["s", "cc"]);
    let mut again = large.clone();
    trim_by_chars(&mut again, 3);
    assert_eq!(contents(&again), contents(&small));
}

#[test]
fn keywords_ignore_ascii_case() {
    for text in ["Hello, World! a bc", "Rust and LEAN proofs", "x-Y_z 12ab"] {
        assert_eq!(keywords(&text.to_ascii_uppercase()), keywords(text));
    }
}

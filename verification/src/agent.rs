//! The agent's memory: long-term memories, a summary of older turns and the
//! recent messages, and the context built from them for each request.

use vstd::prelude::*;
use crate::context::{
    content_len, lemma_total_chars_concat, lemma_trim_fits, lemma_trim_keeps_leading_system, summarize_messages, summary_of,
    text_message, text_message_view, total_chars_of, trim_by_chars, trimmed,
};
use crate::model::{Message, MessageView, copy_messages, message_views, opt_view};
use crate::recall::{
    chars_of_all, is_ranking, keywords, keywords_of, lemma_ranking_unique, listed, memory_score,
    memory_scores, rank_by_score, ranking, recalled,
};
use crate::text::{join_strings, seq_join, string_views};

verus! {

/// How many recent messages the agent keeps before folding older ones into
/// the summary.
pub const MAX_SHORT_HISTORY_MESSAGES: usize = 10;

/// How many characters of message text a request may carry.
pub const MAX_CONTEXT_CHARS: usize = 8000;

/// How many long-term memories a request recalls.
pub const RECALLED_MEMORY_LIMIT: usize = 5;

/// The instructions that open every request.
pub const SYSTEM_PROMPT: &'static str = "你是一个命令行 AI Agent，正在帮助用户学习 AI Agent 开发。请优先用中文回答，回答要清晰、具体、适合初学者。你会收到长期记忆、历史摘要和最近几轮短期对话。长期记忆是跨本次会话保存的重要信息，短期记忆是当前会话的最近上下文。";

/// The heading of the recalled memories in a request.
pub const MEMORY_HEADING: &'static str = "相关长期记忆：\n";

/// The heading of the summary of older turns in a request.
pub const SUMMARY_HEADING: &'static str = "历史摘要：\n";

/// The first memory a new session starts with.
pub const FIRST_MEMORY: &'static str = "用户正在学习 AI Agent 开发。";

/// The second memory a new session starts with.
pub const SECOND_MEMORY: &'static str = "用户使用 Rust 和 DeepSeek API 做学习 Demo。";

/// The heading of the session directory in a memory report.
pub const REPORT_DIR_HEADING: &'static str = "\n=== 会话目录 ===";

/// The heading of the long-term memories in a memory report.
pub const REPORT_MEMORIES_HEADING: &'static str = "\n=== 长期记忆 memory.json ===";

/// The heading of the summary in a memory report.
pub const REPORT_SUMMARY_HEADING: &'static str = "\n=== 历史摘要 summary ===";

/// The heading of the recent messages in a memory report.
pub const REPORT_HISTORY_HEADING: &'static str = "\n=== 短期记忆 short_history ===";

/// What a memory report shows for a missing summary or no recent messages.
pub const REPORT_NONE: &'static str = "(暂无)";

/// The long-term memories, as saved in a session's memory file.
#[derive(Debug)]
pub struct MemoryConfig {
    /// The remembered facts, oldest first.
    pub long_term_memories: Vec<String>,
}

impl Default for MemoryConfig {
    fn default() -> (r: MemoryConfig)
        ensures
            r.long_term_memories@.len() == 0,
    {
        MemoryConfig { long_term_memories: Vec::new() }
    }
}

/// The state of one chat session.
#[derive(Debug)]
pub struct AgentState {
    /// The directory of this session.
    pub session_dir: String,
    /// The file the long-term memories are saved to.
    pub memory_file: String,
    /// The long-term memories.
    pub config: MemoryConfig,
    /// A summary of the turns dropped from the recent messages.
    pub summary: Option<String>,
    /// The recent messages, oldest first.
    pub short_history: Vec<Message>,
}

// ---------------------------------------------------------------------------
// Specifications
// ---------------------------------------------------------------------------

/// A system message with text `text`.
pub open spec fn system_message(text: Seq<char>) -> MessageView {
    text_message_view("system"@, text)
}

/// The messages sent for the input `input`: the instructions, the recalled
/// memories (when any), the summary (when any) and the recent messages,
/// trimmed to [`MAX_CONTEXT_CHARS`] characters.
pub open spec fn context_for(
    memories: Seq<Seq<char>>,
    summary: Option<Seq<char>>,
    history: Seq<MessageView>,
    input: Seq<char>,
) -> Seq<MessageView> {
    let relevant = recalled(memories, input, RECALLED_MEMORY_LIMIT as nat);
    let head = seq![system_message(SYSTEM_PROMPT@)];
    let with_memories = if relevant.len() > 0 {
        head.push(system_message(MEMORY_HEADING@ + seq_join(relevant, "\n"@)))
    } else {
        head
    };
    let with_summary = match summary {
        Some(s) => with_memories.push(system_message(SUMMARY_HEADING@ + s)),
        None => with_memories,
    };
    trimmed(with_summary + history, MAX_CONTEXT_CHARS as nat)
}

/// The recent messages that trimming keeps: the newest
/// [`MAX_SHORT_HISTORY_MESSAGES`] of them.
pub open spec fn kept_history(h: Seq<MessageView>) -> Seq<MessageView> {
    if h.len() <= MAX_SHORT_HISTORY_MESSAGES {
        h
    } else {
        h.skip(h.len() - MAX_SHORT_HISTORY_MESSAGES)
    }
}

/// The recent messages that trimming folds into the summary.
pub open spec fn dropped_history(h: Seq<MessageView>) -> Seq<MessageView> {
    if h.len() <= MAX_SHORT_HISTORY_MESSAGES {
        Seq::empty()
    } else {
        h.take(h.len() - MAX_SHORT_HISTORY_MESSAGES)
    }
}

/// The summary after trimming the recent messages `h`: unchanged when
/// nothing is dropped, else the summary of the dropped messages on a new
/// line after the old summary.
pub open spec fn summary_after_trim(summary: Option<Seq<char>>, h: Seq<MessageView>) -> Option<
    Seq<char>,
> {
    if h.len() <= MAX_SHORT_HISTORY_MESSAGES {
        summary
    } else {
        let new_summary = summary_of(dropped_history(h));
        Some(
            match summary {
                Some(s) => s + "\n"@ + new_summary,
                None => new_summary,
            },
        )
    }
}

/// How a memory report shows a recent message: `role: text`, with nothing
/// after the colon for a message without text.
pub open spec fn history_line(m: MessageView) -> Seq<char> {
    m.role + ": "@ + match m.content {
        Some(c) => c,
        None => Seq::empty(),
    }
}

/// The lines of a memory report: the session directory, the long-term
/// memories listed, the summary, and the recent messages, each under its
/// heading.
pub open spec fn memory_report_of(
    session_dir: Seq<char>,
    memories: Seq<Seq<char>>,
    summary: Option<Seq<char>>,
    history: Seq<MessageView>,
) -> Seq<Seq<char>> {
    seq![REPORT_DIR_HEADING@, session_dir, REPORT_MEMORIES_HEADING@] + memories.map_values(
        |m: Seq<char>| listed(m),
    ) + seq![
        REPORT_SUMMARY_HEADING@,
        match summary {
            Some(s) => s,
            None => REPORT_NONE@,
        },
        REPORT_HISTORY_HEADING@,
    ] + if history.len() == 0 {
        seq![REPORT_NONE@]
    } else {
        history.map_values(|m: MessageView| history_line(m))
    }
}

// ---------------------------------------------------------------------------
// Laws
// ---------------------------------------------------------------------------

/// The messages of a request before trimming hold at most
/// [`MAX_CONTEXT_CHARS`] characters: the instructions, the recalled
/// memories' message (when any memory is recalled), the summary's message
/// (when there is a summary) and the recent messages.
pub open spec fn parts_fit(
    memories: Seq<Seq<char>>,
    summary: Option<Seq<char>>,
    history: Seq<MessageView>,
    input: Seq<char>,
) -> bool {
    let relevant = recalled(memories, input, 5);
    SYSTEM_PROMPT@.len() + (if relevant.len() > 0 {
        ("相关长期记忆：\n"@ + seq_join(relevant, "\n"@)).len() as int
    } else {
        0
    }) + (match summary {
        Some(s) => ("历史摘要：\n"@ + s).len() as int,
        None => 0,
    }) + total_chars_of(history) <= 8000
}

/// When everything fits, a request holds, in order: the instructions; the
/// recalled memories under their heading, when any memory is recalled; the
/// summary under its heading, whenever there is one, whether or not any
/// memory is recalled; and then every recent message.
pub proof fn lemma_context_parts(
    memories: Seq<Seq<char>>,
    summary: Option<Seq<char>>,
    history: Seq<MessageView>,
    input: Seq<char>,
)
    requires
        parts_fit(memories, summary, history, input),
    ensures
        ({
            let c = context_for(memories, summary, history, input);
            let relevant = recalled(memories, input, 5);
            let m: int = if relevant.len() > 0 {
                1
            } else {
                0
            };
            let n: int = if summary is Some {
                1
            } else {
                0
            };
            &&& c.len() == 1 + m + n + history.len()
            &&& c[0] == text_message_view("system"@, SYSTEM_PROMPT@)
            &&& relevant.len() > 0 ==> c[1] == text_message_view(
                "system"@,
                "相关长期记忆：\n"@ + seq_join(relevant, "\n"@),
            )
            &&& summary matches Some(s) ==> c[1 + m] == text_message_view(
                "system"@,
                "历史摘要：\n"@ + s,
            )
            &&& c.skip(1 + m + n) == history
        }),
{
    let relevant = recalled(memories, input, RECALLED_MEMORY_LIMIT as nat);
    let head = seq![system_message(SYSTEM_PROMPT@)];
    let with_memories = if relevant.len() > 0 {
        head.push(system_message(MEMORY_HEADING@ + seq_join(relevant, "\n"@)))
    } else {
        head
    };
    let with_summary = match summary {
        Some(s) => with_memories.push(system_message(SUMMARY_HEADING@ + s)),
        None => with_memories,
    };
    let all = with_summary + history;
    assert(head.drop_last() =~= Seq::<MessageView>::empty());
    assert(total_chars_of(Seq::<MessageView>::empty()) == 0);
    assert(head.last() == system_message(SYSTEM_PROMPT@));
    assert(content_len(head.last()) == SYSTEM_PROMPT@.len());
    assert(total_chars_of(head) == SYSTEM_PROMPT@.len());
    assert(MEMORY_HEADING@ == "相关长期记忆：\n"@);
    assert(SUMMARY_HEADING@ == "历史摘要：\n"@);
    if relevant.len() > 0 {
        assert(with_memories.drop_last() =~= head);
        assert(total_chars_of(with_memories) == SYSTEM_PROMPT@.len() + (MEMORY_HEADING@ + seq_join(
            relevant,
            "\n"@,
        )).len());
    }
    if let Some(s) = summary {
        assert(with_summary.drop_last() =~= with_memories);
        assert(total_chars_of(with_summary) == total_chars_of(with_memories) + (SUMMARY_HEADING@
            + s).len());
    }
    lemma_total_chars_concat(with_summary, history);
    assert(total_chars_of(all) <= MAX_CONTEXT_CHARS);
    assert(trimmed(all, MAX_CONTEXT_CHARS as nat) == all);
    assert(all.skip(with_summary.len() as int) =~= history);
}

/// Every request opens with the instructions, and its texts hold at most
/// [`MAX_CONTEXT_CHARS`] characters unless the instructions alone are left.
pub proof fn lemma_context_opens_with_instructions(
    memories: Seq<Seq<char>>,
    summary: Option<Seq<char>>,
    history: Seq<MessageView>,
    input: Seq<char>,
)
    ensures
        context_for(memories, summary, history, input).len() > 0,
        context_for(memories, summary, history, input)[0] == system_message(SYSTEM_PROMPT@),
        total_chars_of(context_for(memories, summary, history, input)) <= MAX_CONTEXT_CHARS
            || context_for(memories, summary, history, input).len() == 1,
{
    let relevant = recalled(memories, input, RECALLED_MEMORY_LIMIT as nat);
    let head = seq![system_message(SYSTEM_PROMPT@)];
    let with_memories = if relevant.len() > 0 {
        head.push(system_message(MEMORY_HEADING@ + seq_join(relevant, "\n"@)))
    } else {
        head
    };
    let with_summary = match summary {
        Some(s) => with_memories.push(system_message(SUMMARY_HEADING@ + s)),
        None => with_memories,
    };
    let all = with_summary + history;
    assert(all[0] == system_message(SYSTEM_PROMPT@));
    lemma_trim_keeps_leading_system(all, MAX_CONTEXT_CHARS as nat);
    lemma_trim_fits(all, MAX_CONTEXT_CHARS as nat);
}

/// Trimming the recent messages loses none of them: the dropped messages
/// followed by the kept ones are the messages before trimming, and at most
/// [`MAX_SHORT_HISTORY_MESSAGES`] are kept.
pub proof fn lemma_history_split(h: Seq<MessageView>)
    ensures
        dropped_history(h) + kept_history(h) == h,
        kept_history(h).len() <= MAX_SHORT_HISTORY_MESSAGES,
        h.len() > 0 ==> kept_history(h).len() > 0 && kept_history(h).last() == h.last(),
{
    if h.len() > MAX_SHORT_HISTORY_MESSAGES {
        assert(h.take(h.len() - MAX_SHORT_HISTORY_MESSAGES) + h.skip(
            h.len() - MAX_SHORT_HISTORY_MESSAGES,
        ) =~= h);
    } else {
        assert(Seq::<MessageView>::empty() + h =~= h);
    }
}

/// A summary only ever grows: after trimming, the old summary is still its
/// beginning.
pub proof fn lemma_summary_extends(summary: Option<Seq<char>>, h: Seq<MessageView>)
    ensures
        summary matches Some(s) ==> summary_after_trim(summary, h) matches Some(t) && s.is_prefix_of(
            t,
        ),
{
    if let Some(s) = summary {
        let t = summary_after_trim(summary, h)->0;
        assert(s.is_prefix_of(t)) by {
            if h.len() > MAX_SHORT_HISTORY_MESSAGES {
                assert(t == s + ("\n"@ + summary_of(dropped_history(h))));
                assert(t.subrange(0, s.len() as int) =~= s);
            } else {
                assert(t.subrange(0, s.len() as int) =~= s);
            }
        }
    }
}

// ---------------------------------------------------------------------------
// Executable functions
// ---------------------------------------------------------------------------

impl AgentState {
    /// A new session stored under `session_dir`, whose memories are saved to
    /// `memory_file`: two default memories, no summary, no recent messages.
    pub fn new(session_dir: String, memory_file: String) -> (r: AgentState)
        ensures
            r.session_dir@ == session_dir@,
            r.memory_file@ == memory_file@,
            string_views(r.config.long_term_memories@) == seq![FIRST_MEMORY@, SECOND_MEMORY@],
            r.summary is None,
            r.short_history@.len() == 0,
    {
        let mut memories: Vec<String> = Vec::new();
        memories.push(String::from_str(FIRST_MEMORY));
        memories.push(String::from_str(SECOND_MEMORY));
        assert(string_views(memories@) =~= seq![FIRST_MEMORY@, SECOND_MEMORY@]);
        AgentState {
            session_dir,
            memory_file,
            config: MemoryConfig { long_term_memories: memories },
            summary: None,
            short_history: Vec::new(),
        }
    }

    /// Adds `memory` to the end of the long-term memories.
    pub fn remember(&mut self, memory: String)
        ensures
            final(self).config.long_term_memories@ == old(self).config.long_term_memories@.push(
                memory,
            ),
            final(self).summary == old(self).summary,
            final(self).short_history == old(self).short_history,
            final(self).session_dir == old(self).session_dir,
            final(self).memory_file == old(self).memory_file,
    {
        self.config.long_term_memories.push(memory);
    }

    /// Adds a user message with text `content` to the recent messages.
    pub fn add_user_message(&mut self, content: String)
        ensures
            message_views(final(self).short_history@) == message_views(
                old(self).short_history@,
            ).push(text_message_view("user"@, content@)),
            final(self).summary == old(self).summary,
            final(self).config == old(self).config,
            final(self).session_dir == old(self).session_dir,
            final(self).memory_file == old(self).memory_file,
    {
        let ghost before = self.short_history@;
        self.short_history.push(text_message("user", content));
        assert(message_views(self.short_history@) =~= message_views(before).push(
            text_message_view("user"@, content@),
        ));
    }

    /// Adds an assistant message with text `content` to the recent
    /// messages, then folds the oldest into the summary when more than
    /// [`MAX_SHORT_HISTORY_MESSAGES`] are kept.
    pub fn add_assistant_message(&mut self, content: String)
        ensures
            ({
                let h = message_views(old(self).short_history@).push(
                    text_message_view("assistant"@, content@),
                );
                &&& message_views(final(self).short_history@) == kept_history(h)
                &&& opt_view(final(self).summary) == summary_after_trim(opt_view(old(self).summary), h)
            }),
            final(self).config == old(self).config,
            final(self).session_dir == old(self).session_dir,
            final(self).memory_file == old(self).memory_file,
    {
        let ghost before = self.short_history@;
        self.short_history.push(text_message("assistant", content));
        assert(message_views(self.short_history@) =~= message_views(before).push(
            text_message_view("assistant"@, content@),
        ));
        self.trim_short_history();
    }

    /// Drops the newest recent message, if any (as after a failed request).
    pub fn discard_last_message(&mut self)
        ensures
            message_views(final(self).short_history@) == if old(self).short_history@.len() > 0 {
                message_views(old(self).short_history@).drop_last()
            } else {
                message_views(old(self).short_history@)
            },
            final(self).summary == old(self).summary,
            final(self).config == old(self).config,
            final(self).session_dir == old(self).session_dir,
            final(self).memory_file == old(self).memory_file,
    {
        let ghost before = self.short_history@;
        let _ = self.short_history.pop();
        assert(message_views(self.short_history@) =~= if before.len() > 0 {
            message_views(before).drop_last()
        } else {
            message_views(before)
        });
    }

    /// The lines that show the session: its directory, the long-term
    /// memories, the summary and the recent messages.
    pub fn memory_report(&self) -> (r: Vec<String>)
        ensures
            string_views(r@) == memory_report_of(
                self.session_dir@,
                string_views(self.config.long_term_memories@),
                opt_view(self.summary),
                message_views(self.short_history@),
            ),
    {
        let memories = &self.config.long_term_memories;
        let history = &self.short_history;
        let ghost mems = string_views(memories@);
        let ghost hist = message_views(history@);
        let mut r: Vec<String> = Vec::new();
        r.push(String::from_str(REPORT_DIR_HEADING));
        r.push(self.session_dir.clone());
        r.push(String::from_str(REPORT_MEMORIES_HEADING));
        let ghost head = string_views(r@);
        assert(head =~= seq![REPORT_DIR_HEADING@, self.session_dir@, REPORT_MEMORIES_HEADING@]);
        let mut i: usize = 0;
        while i < memories.len()
            invariant
                i <= memories.len(),
                mems == string_views(memories@),
                string_views(r@) == head + mems.take(i as int).map_values(|m: Seq<char>| listed(m)),
            decreases memories.len() - i,
        {
            let mut line = String::from_str("- ");
            line.append(memories[i].as_str());
            let ghost before = r@;
            r.push(line);
            assert(string_views(r@) =~= string_views(before).push(listed(mems[i as int])));
            assert(mems.take(i + 1).map_values(|m: Seq<char>| listed(m)) =~= mems.take(
                i as int,
            ).map_values(|m: Seq<char>| listed(m)).push(listed(mems[i as int])));
            i = i + 1;
        }
        assert(mems.take(memories.len() as int) =~= mems);
        r.push(String::from_str(REPORT_SUMMARY_HEADING));
        match &self.summary {
            Some(summary) => r.push(summary.clone()),
            None => r.push(String::from_str(REPORT_NONE)),
        }
        r.push(String::from_str(REPORT_HISTORY_HEADING));
        let ghost middle = string_views(r@);
        assert(middle =~= head + mems.map_values(|m: Seq<char>| listed(m)) + seq![
            REPORT_SUMMARY_HEADING@,
            match opt_view(self.summary) {
                Some(s) => s,
                None => REPORT_NONE@,
            },
            REPORT_HISTORY_HEADING@,
        ]);
        if history.len() == 0 {
            r.push(String::from_str(REPORT_NONE));
            assert(string_views(r@) =~= middle + seq![REPORT_NONE@]);
            return r;
        }
        let mut k: usize = 0;
        while k < history.len()
            invariant
                k <= history.len(),
                hist == message_views(history@),
                string_views(r@) == middle + hist.take(k as int).map_values(
                    |m: MessageView| history_line(m),
                ),
            decreases history.len() - k,
        {
            let message = &history[k];
            let mut line = message.role.clone();
            line.append(": ");
            match &message.content {
                Some(c) => line.append(c.as_str()),
                None => {},
            }
            assert(line@ =~= history_line(hist[k as int]));
            let ghost before = r@;
            r.push(line);
            assert(string_views(r@) =~= string_views(before).push(line@));
            assert(hist.take(k + 1).map_values(|m: MessageView| history_line(m)) =~= hist.take(
                k as int,
            ).map_values(|m: MessageView| history_line(m)).push(history_line(hist[k as int])));
            k = k + 1;
        }
        assert(hist.take(history.len() as int) =~= hist);
        r
    }

    /// Forgets the summary and the recent messages; the long-term memories
    /// stay.
    pub fn clear_short_memory(&mut self)
        ensures
            final(self).summary is None,
            final(self).short_history@.len() == 0,
            final(self).config == old(self).config,
            final(self).session_dir == old(self).session_dir,
            final(self).memory_file == old(self).memory_file,
    {
        self.summary = None;
        self.short_history.clear();
    }

    /// The messages to send for the user's input `current_input`.
    pub fn build_messages(&self, current_input: &str) -> (r: Vec<Message>)
        ensures
            message_views(r@) == context_for(
                string_views(self.config.long_term_memories@),
                opt_view(self.summary),
                message_views(self.short_history@),
                current_input@,
            ),
    {
        let mut messages: Vec<Message> = Vec::new();
        messages.push(text_message("system", String::from_str(SYSTEM_PROMPT)));
        let relevant = self.search_long_term_memory(current_input, RECALLED_MEMORY_LIMIT);
        if relevant.len() > 0 {
            let mut text = String::from_str(MEMORY_HEADING);
            let joined = join_strings(&relevant, "\n");
            text.append(joined.as_str());
            messages.push(text_message("system", text));
        }
        match &self.summary {
            Some(summary) => {
                let mut text = String::from_str(SUMMARY_HEADING);
                text.append(summary.as_str());
                messages.push(text_message("system", text));
            },
            None => {},
        }
        let ghost head = message_views(messages@);
        let mut recent = copy_messages(&self.short_history);
        messages.append(&mut recent);
        proof {
            let relevant_views = recalled(
                string_views(self.config.long_term_memories@),
                current_input@,
                RECALLED_MEMORY_LIMIT as nat,
            );
            let h0 = seq![system_message(SYSTEM_PROMPT@)];
            let h1 = if relevant_views.len() > 0 {
                h0.push(system_message(MEMORY_HEADING@ + seq_join(relevant_views, "\n"@)))
            } else {
                h0
            };
            let h2 = match opt_view(self.summary) {
                Some(s) => h1.push(system_message(SUMMARY_HEADING@ + s)),
                None => h1,
            };
            assert(head =~= h2);
            assert(message_views(messages@) =~= head + message_views(self.short_history@));
        }
        trim_by_chars(&mut messages, MAX_CONTEXT_CHARS);
        messages
    }

    /// The long-term memories that share keywords with `query`, best
    /// first, at most `limit` of them, each listed as `- memory`.  A query
    /// without keywords gives the first `limit` memories.
    pub fn search_long_term_memory(&self, query: &str, limit: usize) -> (r: Vec<String>)
        ensures
            string_views(r@) == recalled(
                string_views(self.config.long_term_memories@),
                query@,
                limit as nat,
            ),
    {
        let memories = &self.config.long_term_memories;
        let ghost mems = string_views(memories@);
        let query_words = keywords(query);
        let mut r: Vec<String> = Vec::new();
        if query_words.len() == 0 {
            let n = if limit < memories.len() { limit } else { memories.len() };
            let ghost picked = Seq::new(mems.len(), |i: int| i);
            let mut k: usize = 0;
            while k < n
                invariant
                    k <= n <= memories.len(),
                    mems == string_views(memories@),
                    picked == Seq::new(mems.len(), |i: int| i),
                    string_views(r@) == picked.take(k as int).map_values(
                        |i: int| listed(mems[i]),
                    ),
                decreases n - k,
            {
                let mut line = String::from_str("- ");
                line.append(memories[k].as_str());
                let ghost before = r@;
                r.push(line);
                assert(string_views(r@) =~= string_views(before).push(listed(mems[k as int])));
                assert(picked.take(k + 1).map_values(|i: int| listed(mems[i])) =~= picked.take(
                    k as int,
                ).map_values(|i: int| listed(mems[i])).push(listed(mems[k as int])));
                k = k + 1;
            }
            return r;
        }
        let query_terms = chars_of_all(&query_words);
        let ghost qt = keywords_of(query@);
        let ghost spec_scores = memory_scores(qt, mems);
        let mut scores: Vec<usize> = Vec::new();
        let mut i: usize = 0;
        while i < memories.len()
            invariant
                i <= memories.len(),
                mems == string_views(memories@),
                qt == query_terms@.map_values(|t: Vec<char>| t@),
                spec_scores == memory_scores(qt, mems),
                scores@.len() == i,
                forall|j: int| 0 <= j < i ==> #[trigger] scores@[j] as nat == spec_scores[j],
            decreases memories.len() - i,
        {
            let score = memory_score(&query_terms, memories[i].as_str());
            scores.push(score);
            i = i + 1;
        }
        let order = rank_by_score(&scores);
        let ghost picked = order@.map_values(|x: usize| x as int);
        proof {
            assert(scores@.map_values(|x: usize| x as nat) =~= spec_scores);
            lemma_ranking_unique(picked, ranking(spec_scores), spec_scores);
        }
        let n = if limit < order.len() { limit } else { order.len() };
        let mut k: usize = 0;
        while k < n
            invariant
                k <= n <= order.len(),
                mems == string_views(memories@),
                is_ranking(picked, spec_scores),
                spec_scores.len() == mems.len(),
                picked == order@.map_values(|x: usize| x as int),
                string_views(r@) == picked.take(k as int).map_values(|i: int| listed(mems[i])),
            decreases n - k,
        {
            let index = order[k];
            assert(picked[k as int] == index as int);
            let mut line = String::from_str("- ");
            line.append(memories[index].as_str());
            let ghost before = r@;
            r.push(line);
            assert(string_views(r@) =~= string_views(before).push(listed(mems[index as int])));
            assert(picked.take(k + 1).map_values(|i: int| listed(mems[i])) =~= picked.take(
                k as int,
            ).map_values(|i: int| listed(mems[i])).push(listed(mems[index as int])));
            k = k + 1;
        }
        r
    }

    /// Folds the oldest recent messages into the summary so that at most
    /// [`MAX_SHORT_HISTORY_MESSAGES`] are kept.
    pub fn trim_short_history(&mut self)
        ensures
            message_views(final(self).short_history@) == kept_history(
                message_views(old(self).short_history@),
            ),
            opt_view(final(self).summary) == summary_after_trim(
                opt_view(old(self).summary),
                message_views(old(self).short_history@),
            ),
            final(self).config == old(self).config,
            final(self).session_dir == old(self).session_dir,
            final(self).memory_file == old(self).memory_file,
    {
        if self.short_history.len() <= MAX_SHORT_HISTORY_MESSAGES {
            return;
        }
        let ghost h = self.short_history@;
        let overflow_count = self.short_history.len() - MAX_SHORT_HISTORY_MESSAGES;
        let mut old_messages = self.short_history.split_off(overflow_count);
        std::mem::swap(&mut self.short_history, &mut old_messages);
        assert(message_views(self.short_history@) =~= message_views(h).skip(overflow_count as int));
        assert(message_views(old_messages@) =~= message_views(h).take(overflow_count as int));
        let new_summary = summarize_messages(old_messages.as_slice());
        let summary = match &self.summary {
            Some(summary) => {
                let mut text = summary.clone();
                text.append("\n");
                text.append(new_summary.as_str());
                text
            },
            None => new_summary,
        };
        self.summary = Some(summary);
    }
}

} // verus!

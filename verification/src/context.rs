//! Building, measuring, trimming and summarising the messages sent as context.

use vstd::prelude::*;
use crate::model::{Message, MessageView, message_views};
use crate::text::{chars_of, join_strings, seq_join, string_views};

verus! {

/// The first words of every summary of older messages.
pub const SUMMARY_PREFIX: &'static str = "较早对话摘要：";

/// How many characters of a message's text a summary line keeps.
pub const SUMMARY_LINE_CHARS: usize = 120;

// ---------------------------------------------------------------------------
// Specifications
// ---------------------------------------------------------------------------

/// A message with role `role` and text `content`, and no tool data.
pub open spec fn text_message_view(role: Seq<char>, content: Seq<char>) -> MessageView {
    MessageView { role, content: Some(content), tool_calls: None, tool_call_id: None }
}

/// The number of characters of a message's text (none counts as zero).
pub open spec fn content_len(m: MessageView) -> nat {
    match m.content {
        Some(c) => c.len(),
        None => 0,
    }
}

/// The number of characters of all the messages' texts.
pub open spec fn total_chars_of(s: Seq<MessageView>) -> nat
    decreases s.len(),
{
    if s.len() == 0 {
        0
    } else {
        total_chars_of(s.drop_last()) + content_len(s.last())
    }
}

/// Whether a message is a system message.
pub open spec fn is_system(m: MessageView) -> bool {
    m.role == "system"@
}

/// The index of the first message at or after `i` that is not a system
/// message, or `s.len()` when there is none.
pub open spec fn first_non_system_from(s: Seq<MessageView>, i: nat) -> nat
    decreases s.len() - i,
{
    if i >= s.len() {
        s.len()
    } else if !is_system(s[i as int]) {
        i
    } else {
        first_non_system_from(s, i + 1)
    }
}

/// The message that trimming drops next: the oldest non-system message, or
/// the second message when all are system messages.
pub open spec fn removal_index(s: Seq<MessageView>) -> nat {
    let p = first_non_system_from(s, 0);
    if p < s.len() {
        p
    } else {
        1
    }
}

/// `s` after dropping messages, one at a time, while its texts hold more
/// than `max` characters and more than one message is left.
pub open spec fn trimmed(s: Seq<MessageView>, max: nat) -> Seq<MessageView>
    decreases s.len(),
{
    if total_chars_of(s) > max && s.len() > 1 {
        proof {
            lemma_first_non_system_bounds(s, 0);
        }
        trimmed(s.remove(removal_index(s) as int), max)
    } else {
        s
    }
}

/// A message's text on one line: each line feed becomes a space.
pub open spec fn one_line(c: Seq<char>) -> Seq<char> {
    c.map_values(|ch: char| if ch == '\n' { ' ' } else { ch })
}

/// A message's text as a summary shows it: on one line, and cut to
/// [`SUMMARY_LINE_CHARS`] characters followed by `...` when longer.
pub open spec fn shortened(c: Seq<char>) -> Seq<char> {
    let k = one_line(c);
    if k.len() > SUMMARY_LINE_CHARS {
        k.take(SUMMARY_LINE_CHARS as int) + "..."@
    } else {
        k
    }
}

/// One line `role: text` for each message that has a text, in order.
pub open spec fn summary_lines(s: Seq<MessageView>) -> Seq<Seq<char>>
    decreases s.len(),
{
    if s.len() == 0 {
        Seq::empty()
    } else {
        let prev = summary_lines(s.drop_last());
        match s.last().content {
            Some(c) => prev.push(s.last().role + ": "@ + shortened(c)),
            None => prev,
        }
    }
}

/// The summary of `s`: the prefix, then the lines joined with ` | `.
pub open spec fn summary_of(s: Seq<MessageView>) -> Seq<char> {
    SUMMARY_PREFIX@ + seq_join(summary_lines(s), " | "@)
}

/// `f` places each element of `a`, in order, at a position of `b` that
/// holds it.
pub open spec fn embeds<A>(a: Seq<A>, b: Seq<A>, f: Seq<int>) -> bool {
    &&& f.len() == a.len()
    &&& forall|i: int| 0 <= i < f.len() ==> 0 <= #[trigger] f[i] < b.len() && a[i] == b[f[i]]
    &&& forall|i: int, j: int| 0 <= i < j < f.len() ==> #[trigger] f[i] < #[trigger] f[j]
}

/// `a` is `b` with some elements left out.
pub open spec fn is_subsequence<A>(a: Seq<A>, b: Seq<A>) -> bool {
    exists|f: Seq<int>| embeds(a, b, f)
}

// ---------------------------------------------------------------------------
// Lemmas
// ---------------------------------------------------------------------------

proof fn lemma_subsequence_refl<A>(a: Seq<A>)
    ensures
        is_subsequence(a, a),
{
    let f = Seq::new(a.len(), |i: int| i);
    assert(embeds(a, a, f));
}

proof fn lemma_subsequence_remove<A>(a: Seq<A>, k: int)
    requires
        0 <= k < a.len(),
    ensures
        is_subsequence(a.remove(k), a),
{
    let f = Seq::new((a.len() - 1) as nat, |i: int| if i < k { i } else { i + 1 });
    assert(embeds(a.remove(k), a, f));
}

proof fn lemma_subsequence_trans<A>(a: Seq<A>, b: Seq<A>, c: Seq<A>)
    requires
        is_subsequence(a, b),
        is_subsequence(b, c),
    ensures
        is_subsequence(a, c),
{
    let f = choose|f: Seq<int>| embeds(a, b, f);
    let g = choose|g: Seq<int>| embeds(b, c, g);
    let h = Seq::new(f.len(), |i: int| g[f[i]]);
    assert forall|i: int| 0 <= i < h.len() implies 0 <= #[trigger] h[i] < c.len() && a[i] == c[h[i]] by {
        assert(0 <= f[i] < b.len());
    }
    assert forall|i: int, j: int| 0 <= i < j < h.len() implies #[trigger] h[i] < #[trigger] h[j] by {
        assert(f[i] < f[j]);
        assert(0 <= f[j] < b.len());
    }
    assert(embeds(a, c, h));
}

/// A subsequence is no longer than the sequence it is taken from.
pub proof fn lemma_subsequence_len<A>(a: Seq<A>, b: Seq<A>)
    requires
        is_subsequence(a, b),
    ensures
        a.len() <= b.len(),
    decreases a.len(),
{
    let f = choose|f: Seq<int>| embeds(a, b, f);
    if a.len() > 0 {
        assert(embeds(a.drop_last(), b.subrange(0, f.last()), f.drop_last())) by {
            assert forall|i: int| 0 <= i < f.len() - 1 implies f[i] < f.last() by {}
        }
        lemma_subsequence_len(a.drop_last(), b.subrange(0, f.last()));
    }
}

/// The first non-system message at or after `i` lies in `i..=s.len()`, and
/// every message before it from `i` on is a system message.
pub proof fn lemma_first_non_system_bounds(s: Seq<MessageView>, i: nat)
    ensures
        i <= s.len() ==> i <= first_non_system_from(s, i) <= s.len(),
        forall|k: int| i <= k < first_non_system_from(s, i) ==> is_system(#[trigger] s[k]),
        first_non_system_from(s, i) < s.len() ==> !is_system(s[first_non_system_from(s, i) as int]),
    decreases s.len() - i,
{
    if i < s.len() && is_system(s[i as int]) {
        lemma_first_non_system_bounds(s, i + 1);
    }
}

proof fn lemma_total_chars_prefix(s: Seq<MessageView>, j: int)
    requires
        0 <= j <= s.len(),
    ensures
        total_chars_of(s.take(j)) <= total_chars_of(s),
    decreases s.len(),
{
    if j < s.len() {
        assert(s.drop_last().take(j) =~= s.take(j));
        lemma_total_chars_prefix(s.drop_last(), j);
    } else {
        assert(s.take(j) =~= s);
    }
}

proof fn lemma_total_chars_step(s: Seq<MessageView>, i: int)
    requires
        0 <= i < s.len(),
    ensures
        total_chars_of(s.take(i + 1)) == total_chars_of(s.take(i)) + content_len(s[i]),
{
    assert(s.take(i + 1).drop_last() =~= s.take(i));
}

/// Trimming never drops the first message when it is a system message, and
/// never drops the last message.
pub proof fn lemma_trim_keeps_leading_system(s: Seq<MessageView>, max: nat)
    requires
        s.len() > 0,
        is_system(s[0]),
    ensures
        trimmed(s, max).len() > 0,
        trimmed(s, max)[0] == s[0],
    decreases s.len(),
{
    if total_chars_of(s) > max && s.len() > 1 {
        lemma_first_non_system_bounds(s, 0);
        let k = removal_index(s) as int;
        assert(k >= 1);
        lemma_trim_keeps_leading_system(s.remove(k), max);
    }
}

/// After trimming, the texts hold at most `max` characters, or a single
/// message is left.
pub proof fn lemma_trim_fits(s: Seq<MessageView>, max: nat)
    ensures
        total_chars_of(trimmed(s, max)) <= max || trimmed(s, max).len() <= 1,
    decreases s.len(),
{
    if total_chars_of(s) > max && s.len() > 1 {
        lemma_first_non_system_bounds(s, 0);
        lemma_trim_fits(s.remove(removal_index(s) as int), max);
    }
}

/// Trimming a sequence that already fits changes nothing, and trimming twice
/// is the same as trimming once.
pub proof fn lemma_trim_idempotent(s: Seq<MessageView>, max: nat)
    ensures
        trimmed(trimmed(s, max), max) == trimmed(s, max),
    decreases s.len(),
{
    if total_chars_of(s) > max && s.len() > 1 {
        lemma_first_non_system_bounds(s, 0);
        lemma_trim_idempotent(s.remove(removal_index(s) as int), max);
    }
}

/// The characters of two sequences of messages put together are the
/// characters of the first and of the second.
pub proof fn lemma_total_chars_concat(a: Seq<MessageView>, b: Seq<MessageView>)
    ensures
        total_chars_of(a + b) == total_chars_of(a) + total_chars_of(b),
    decreases b.len(),
{
    if b.len() == 0 {
        assert(a + b =~= a);
    } else {
        assert((a + b).drop_last() =~= a + b.drop_last());
        lemma_total_chars_concat(a, b.drop_last());
    }
}

/// The same for messages: counting the messages of `a` followed by those of
/// `b` counts those of `a` and those of `b`.
pub proof fn lemma_total_chars_concat_messages(a: Seq<Message>, b: Seq<Message>)
    ensures
        total_chars_of(message_views(a + b)) == total_chars_of(message_views(a))
            + total_chars_of(message_views(b)),
{
    assert(message_views(a + b) =~= message_views(a) + message_views(b));
    lemma_total_chars_concat(message_views(a), message_views(b));
}

/// Trimming leaves out messages but never reorders or changes them.
pub proof fn lemma_trim_subsequence(s: Seq<MessageView>, max: nat)
    ensures
        is_subsequence(trimmed(s, max), s),
    decreases s.len(),
{
    if total_chars_of(s) > max && s.len() > 1 {
        lemma_first_non_system_bounds(s, 0);
        let k = removal_index(s) as int;
        lemma_trim_subsequence(s.remove(k), max);
        lemma_subsequence_remove(s, k);
        lemma_subsequence_trans(trimmed(s.remove(k), max), s.remove(k), s);
    } else {
        lemma_subsequence_refl(s);
    }
}

/// A smaller budget trims further along the same way: trimming with `m1`
/// is trimming the result for `m2 >= m1` again with `m1`, so it keeps a
/// subsequence of the messages the larger budget keeps.
pub proof fn lemma_trim_monotone(s: Seq<MessageView>, m1: nat, m2: nat)
    requires
        m1 <= m2,
    ensures
        trimmed(s, m1) == trimmed(trimmed(s, m2), m1),
        is_subsequence(trimmed(s, m1), trimmed(s, m2)),
        trimmed(s, m1).len() <= trimmed(s, m2).len(),
    decreases s.len(),
{
    if total_chars_of(s) > m2 && s.len() > 1 {
        lemma_first_non_system_bounds(s, 0);
        lemma_trim_monotone(s.remove(removal_index(s) as int), m1, m2);
    }
    lemma_trim_subsequence(trimmed(s, m2), m1);
    lemma_subsequence_len(trimmed(s, m1), trimmed(s, m2));
}

/// A summary line keeps the beginning of a message's text: its first 120
/// characters, with each line feed shown as a space, followed by `...` when
/// the text is longer, and the whole text otherwise.
pub proof fn lemma_shortened_keeps_beginning(c: Seq<char>)
    ensures
        shortened(c).len() == if c.len() > 120 {
            123
        } else {
            c.len()
        },
        forall|i: int|
            0 <= i < c.len() && i < 120 ==> #[trigger] shortened(c)[i] == if c[i] == '\n' {
                ' '
            } else {
                c[i]
            },
        c.len() > 120 ==> shortened(c).skip(120) == "..."@,
{
    reveal_strlit("...");
    let k = one_line(c);
    if c.len() > 120 {
        assert(shortened(c).skip(120) =~= "..."@);
    }
}

// ---------------------------------------------------------------------------
// Executable functions
// ---------------------------------------------------------------------------

/// A message with role `role` and text `content`.
pub fn text_message(role: &str, content: String) -> (r: Message)
    ensures
        r@ == text_message_view(role@, content@),
{
    Message {
        role: String::from_str(role),
        content: Some(content),
        tool_calls: None,
        tool_call_id: None,
    }
}

/// The number of characters of a message's text.
fn content_chars(m: &Message) -> (r: usize)
    ensures
        r == content_len(m@),
{
    match &m.content {
        Some(c) => c.as_str().unicode_len(),
        None => 0,
    }
}

/// The number of characters of all the messages' texts.  The count must fit
/// in a `usize`.
pub fn total_chars(messages: &[Message]) -> (r: usize)
    requires
        total_chars_of(message_views(messages@)) <= usize::MAX,
    ensures
        r == total_chars_of(message_views(messages@)),
{
    let ghost views = message_views(messages@);
    let mut total: usize = 0;
    let mut i: usize = 0;
    while i < messages.len()
        invariant
            i <= messages.len(),
            views == message_views(messages@),
            total_chars_of(views) <= usize::MAX,
            total == total_chars_of(views.take(i as int)),
        decreases messages.len() - i,
    {
        proof {
            lemma_total_chars_step(views, i as int);
            lemma_total_chars_prefix(views, i + 1);
        }
        total = total + content_chars(&messages[i]);
        i = i + 1;
    }
    assert(views.take(messages.len() as int) =~= views);
    total
}

/// Whether the messages' texts hold more than `max` characters.
fn chars_exceed(messages: &Vec<Message>, max: usize) -> (r: bool)
    ensures
        r == (total_chars_of(message_views(messages@)) > max),
{
    let ghost views = message_views(messages@);
    let mut total: usize = 0;
    let mut i: usize = 0;
    while i < messages.len()
        invariant
            i <= messages.len(),
            views == message_views(messages@),
            total == total_chars_of(views.take(i as int)),
            total <= max,
        decreases messages.len() - i,
    {
        proof {
            lemma_total_chars_step(views, i as int);
            lemma_total_chars_prefix(views, i + 1);
        }
        let n = content_chars(&messages[i]);
        match total.checked_add(n) {
            Some(t) => {
                if t > max {
                    return true;
                }
                total = t;
            },
            None => {
                return true;
            },
        }
        i = i + 1;
    }
    assert(views.take(messages.len() as int) =~= views);
    false
}

/// The index of the message that trimming drops next.
fn removal_position(messages: &Vec<Message>) -> (r: usize)
    requires
        messages.len() > 1,
    ensures
        r == removal_index(message_views(messages@)),
        r < messages.len(),
{
    let ghost views = message_views(messages@);
    let system = String::from_str("system");
    let mut i: usize = 0;
    while i < messages.len()
        invariant
            i <= messages.len(),
            views == message_views(messages@),
            system@ == "system"@,
            first_non_system_from(views, 0) == first_non_system_from(views, i as nat),
        decreases messages.len() - i,
    {
        if messages[i].role != system {
            return i;
        }
        i = i + 1;
    }
    1
}

/// Drops messages, oldest non-system message first, while the texts hold
/// more than `max_chars` characters and more than one message is left.
pub fn trim_by_chars(messages: &mut Vec<Message>, max_chars: usize)
    ensures
        message_views(final(messages)@) == trimmed(message_views(old(messages)@), max_chars as nat),
{
    while chars_exceed(messages, max_chars) && messages.len() > 1
        invariant
            trimmed(message_views(messages@), max_chars as nat) == trimmed(
                message_views(old(messages)@),
                max_chars as nat,
            ),
        decreases messages.len(),
    {
        let k = removal_position(messages);
        let ghost before = messages@;
        messages.remove(k);
        assert(message_views(messages@) =~= message_views(before).remove(k as int));
    }
}

/// A summary of older messages: one `role: text` line per message that has
/// a text, each cut to [`SUMMARY_LINE_CHARS`] characters, after a prefix.
pub fn summarize_messages(messages: &[Message]) -> (r: String)
    ensures
        r@ == summary_of(message_views(messages@)),
{
    let ghost views = message_views(messages@);
    let mut lines: Vec<String> = Vec::new();
    let mut i: usize = 0;
    while i < messages.len()
        invariant
            i <= messages.len(),
            views == message_views(messages@),
            string_views(lines@) == summary_lines(views.take(i as int)),
        decreases messages.len() - i,
    {
        let message = &messages[i];
        assert(views.take(i + 1).drop_last() =~= views.take(i as int));
        if let Some(content) = &message.content {
            let line = summary_line(&message.role, content);
            let ghost before = lines@;
            lines.push(line);
            assert(string_views(lines@) =~= string_views(before).push(line@));
        }
        i = i + 1;
    }
    assert(views.take(messages.len() as int) =~= views);
    let mut r = String::from_str(SUMMARY_PREFIX);
    let joined = join_strings(&lines, " | ");
    r.append(joined.as_str());
    r
}

/// `role: text`, with the text on one line and cut to
/// [`SUMMARY_LINE_CHARS`] characters.
fn summary_line(role: &String, content: &String) -> (r: String)
    ensures
        r@ == role@ + ": "@ + shortened(content@),
{
    let cs = chars_of(content.as_str());
    let ghost k = one_line(cs@);
    let n = if cs.len() > SUMMARY_LINE_CHARS { SUMMARY_LINE_CHARS } else { cs.len() };
    let mut r = role.clone();
    r.append(": ");
    let ghost start = r@;
    let mut i: usize = 0;
    while i < n
        invariant
            i <= n <= cs.len(),
            k == one_line(cs@),
            r@ == start + k.take(i as int),
        decreases n - i,
    {
        let c = cs[i];
        if c == '\n' {
            r.push(' ');
        } else {
            r.push(c);
        }
        assert(k.take(i + 1) =~= k.take(i as int).push(k[i as int]));
        i = i + 1;
    }
    if cs.len() > SUMMARY_LINE_CHARS {
        r.append("...");
    } else {
        assert(k.take(n as int) =~= k);
    }
    r
}

} // verus!

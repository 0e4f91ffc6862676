//! The chat API's data types: messages, tool calls and responses.

use vstd::prelude::*;

verus! {

/// The model's view of an optional string.
pub open spec fn opt_view(o: Option<String>) -> Option<Seq<char>> {
    match o {
        Some(s) => Some(s@),
        None => None,
    }
}

/// A function the model asked to call.
#[derive(Debug, Clone)]
pub struct FunctionCall {
    /// The name of the function to call.
    pub name: String,
    /// The arguments, a JSON text produced by the model.
    pub arguments: String,
}

/// The view of a [`FunctionCall`].
pub struct FunctionCallView {
    pub name: Seq<char>,
    pub arguments: Seq<char>,
}

impl View for FunctionCall {
    type V = FunctionCallView;

    open spec fn view(&self) -> FunctionCallView {
        FunctionCallView { name: self.name@, arguments: self.arguments@ }
    }
}

/// A tool call returned by the model.
#[derive(Debug, Clone)]
pub struct ToolCall {
    /// The call's identifier, echoed back with the tool's result.
    pub id: String,
    /// Always `"function"`.
    pub call_type: String,
    /// The function to call.
    pub function: FunctionCall,
}

/// The view of a [`ToolCall`].
pub struct ToolCallView {
    pub id: Seq<char>,
    pub call_type: Seq<char>,
    pub function: FunctionCallView,
}

impl View for ToolCall {
    type V = ToolCallView;

    open spec fn view(&self) -> ToolCallView {
        ToolCallView { id: self.id@, call_type: self.call_type@, function: self.function@ }
    }
}

/// The views of a sequence of tool calls.
pub open spec fn tool_call_views(s: Seq<ToolCall>) -> Seq<ToolCallView> {
    s.map_values(|t: ToolCall| t@)
}

/// A chat message.
#[derive(Debug, Clone)]
pub struct Message {
    /// `"system"`, `"user"`, `"assistant"` or `"tool"`.
    pub role: String,
    /// The text of the message; a tool message may leave it out.
    pub content: Option<String>,
    /// The tool calls of an assistant message.
    pub tool_calls: Option<Vec<ToolCall>>,
    /// For a tool message, the id of the call it answers.
    pub tool_call_id: Option<String>,
}

/// The view of a [`Message`].
pub struct MessageView {
    pub role: Seq<char>,
    pub content: Option<Seq<char>>,
    pub tool_calls: Option<Seq<ToolCallView>>,
    pub tool_call_id: Option<Seq<char>>,
}

impl View for Message {
    type V = MessageView;

    open spec fn view(&self) -> MessageView {
        MessageView {
            role: self.role@,
            content: opt_view(self.content),
            tool_calls: match self.tool_calls {
                Some(v) => Some(tool_call_views(v@)),
                None => None,
            },
            tool_call_id: opt_view(self.tool_call_id),
        }
    }
}

/// The views of a sequence of messages.
pub open spec fn message_views(s: Seq<Message>) -> Seq<MessageView> {
    s.map_values(|m: Message| m@)
}

/// The definition of a function the model may call.
#[derive(Debug)]
pub struct FunctionDef {
    /// The name the model calls the function by.
    pub name: String,
    /// When the model should use the function.
    pub description: String,
    /// The parameters, as a JSON Schema document.
    pub parameters: serde_json::Value,
}

/// A tool offered to the model: one function.
#[derive(Debug)]
pub struct Tool {
    /// Always `"function"`.
    pub tool_type: String,
    /// The function.
    pub function: FunctionDef,
}

/// One of the answers in a chat completion response.
#[derive(Debug)]
pub struct Choice {
    /// The message the model produced.
    pub message: Message,
    /// Why the model stopped, e.g. `"stop"` or `"tool_calls"`.
    pub finish_reason: Option<String>,
}

/// A chat completion response.
#[derive(Debug)]
pub struct ChatResponse {
    /// The answers, most often exactly one.
    pub choices: Vec<Choice>,
}

fn copy_opt_string(o: &Option<String>) -> (r: Option<String>)
    ensures
        opt_view(r) == opt_view(*o),
{
    match o {
        Some(s) => Some(s.clone()),
        None => None,
    }
}

impl FunctionCall {
    /// A copy of this call.
    pub fn copy(&self) -> (r: FunctionCall)
        ensures
            r@ == self@,
    {
        FunctionCall { name: self.name.clone(), arguments: self.arguments.clone() }
    }
}

impl ToolCall {
    /// A copy of this tool call.
    pub fn copy(&self) -> (r: ToolCall)
        ensures
            r@ == self@,
    {
        ToolCall { id: self.id.clone(), call_type: self.call_type.clone(), function: self.function.copy() }
    }
}

fn copy_tool_calls(v: &Vec<ToolCall>) -> (r: Vec<ToolCall>)
    ensures
        tool_call_views(r@) == tool_call_views(v@),
{
    let mut r: Vec<ToolCall> = Vec::new();
    let mut i: usize = 0;
    while i < v.len()
        invariant
            i <= v.len(),
            tool_call_views(r@) == tool_call_views(v@.take(i as int)),
        decreases v.len() - i,
    {
        r.push(v[i].copy());
        assert(tool_call_views(v@.take(i + 1)) =~= tool_call_views(v@.take(i as int)).push(v@[i as int]@));
        assert(tool_call_views(r@) =~= tool_call_views(v@.take(i + 1)));
        i = i + 1;
    }
    assert(v@.take(v.len() as int) =~= v@);
    r
}

impl Message {
    /// A copy of this message.
    pub fn copy(&self) -> (r: Message)
        ensures
            r@ == self@,
    {
        let tool_calls = match &self.tool_calls {
            Some(v) => Some(copy_tool_calls(v)),
            None => None,
        };
        Message {
            role: self.role.clone(),
            content: copy_opt_string(&self.content),
            tool_calls,
            tool_call_id: copy_opt_string(&self.tool_call_id),
        }
    }
}

/// Copies of the messages `v`, in order.
pub fn copy_messages(v: &Vec<Message>) -> (r: Vec<Message>)
    ensures
        message_views(r@) == message_views(v@),
{
    let mut r: Vec<Message> = Vec::new();
    let mut i: usize = 0;
    while i < v.len()
        invariant
            i <= v.len(),
            message_views(r@) == message_views(v@.take(i as int)),
        decreases v.len() - i,
    {
        r.push(v[i].copy());
        assert(message_views(v@.take(i + 1)) =~= message_views(v@.take(i as int)).push(v@[i as int]@));
        assert(message_views(r@) =~= message_views(v@.take(i + 1)));
        i = i + 1;
    }
    assert(v@.take(v.len() as int) =~= v@);
    r
}

} // verus!

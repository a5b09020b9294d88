use vstd::prelude::*;
use vstd::string::StringExecFns;

verus! {

/// A structured value that function calls carry and that this library passes through untouched.
#[verifier::external_type_specification]
#[verifier::external_body]
pub struct ExValue(serde_json::Value);

/// Relies on `Value`'s `Clone`, so that fragments carrying a value can be cloned; nothing is
/// claimed of the copy.
pub assume_specification[ <serde_json::Value as Clone>::clone ](v: &serde_json::Value) -> serde_json::Value;

/// Who spoke a turn.
#[allow(non_camel_case_types)]
#[derive(Clone, Copy, Debug, PartialEq, Eq, Structural)]
pub enum Role {
    user,
    model,
}

/// Media carried inline, as a MIME type and a base64 payload.
#[derive(Debug, Clone)]
pub struct InlineData {
    pub mime_type: String,
    pub data: String,
}

#[allow(non_camel_case_types)]
#[derive(Clone, Copy, Debug, PartialEq, Eq, Structural)]
pub enum Language {
    /// Unspecified language. This value should not be used.
    LANGUAGE_UNSPECIFIED,
    /// Python >= 3.10, with numpy and simpy available.
    PYTHON,
}

/// Code that the model wrote for execution.
#[derive(Debug, Clone)]
pub struct ExecutableCode {
    pub language: Language,
    pub code: String,
}

/// A call of a function that the model asks for.
#[derive(Debug, Clone)]
pub struct FunctionCall {
    pub id: Option<String>,
    pub name: String,
    pub args: Option<serde_json::Value>,
}

/// The answer to a [`FunctionCall`].
#[derive(Debug, Clone)]
pub struct FunctionResponse {
    pub id: Option<String>,
    pub name: String,
    pub response: serde_json::Value,
}

/// A reference to a file by URL.
#[allow(non_snake_case)]
#[derive(Debug, Clone)]
pub struct FileData {
    pub mimeType: Option<String>,
    pub fileUrl: String,
}

#[allow(non_camel_case_types)]
#[derive(Clone, Copy, Debug, PartialEq, Eq, Structural)]
pub enum Outcome {
    /// Unspecified status. This value should not be used.
    OUTCOME_UNSPECIFIED,
    /// Code execution completed successfully.
    OUTCOME_OK,
    /// Code execution finished but with a failure. `stderr` should contain the reason.
    OUTCOME_FAILED,
    /// Code execution ran for too long, and was cancelled.
    /// There may or may not be a partial output present.
    OUTCOME_DEADLINE_EXCEEDED,
}

/// The result of running [`ExecutableCode`].
#[derive(Debug, Clone)]
pub struct CodeExecuteResult {
    pub outcome: Outcome,
    pub output: Option<String>,
}

/// One unit of message content.
#[allow(non_camel_case_types)]
#[derive(Debug, Clone)]
pub enum Part {
    text(String),
    inline_data(InlineData),
    executable_code(ExecutableCode),
    code_execution_result(CodeExecuteResult),
    functionCall(FunctionCall),
    functionResponse(FunctionResponse),
    fileData(FileData),
}

/// The mathematical value of a [`Part`]: strings become character sequences.
pub enum PartView {
    Text(Seq<char>),
    InlineData { mime_type: Seq<char>, data: Seq<char> },
    ExecutableCode { language: Language, code: Seq<char> },
    CodeExecutionResult { outcome: Outcome, output: Option<Seq<char>> },
    FunctionCall { id: Option<Seq<char>>, name: Seq<char>, args: Option<serde_json::Value> },
    FunctionResponse { id: Option<Seq<char>>, name: Seq<char>, response: serde_json::Value },
    FileData { mime_type: Option<Seq<char>>, file_url: Seq<char> },
}

pub open spec fn opt_str_view(o: Option<String>) -> Option<Seq<char>> {
    match o {
        Some(s) => Some(s@),
        None => None,
    }
}

impl View for Part {
    type V = PartView;

    open spec fn view(&self) -> PartView {
        match self {
            Part::text(s) => PartView::Text(s@),
            Part::inline_data(d) => PartView::InlineData { mime_type: d.mime_type@, data: d.data@ },
            Part::executable_code(c) => PartView::ExecutableCode {
                language: c.language,
                code: c.code@,
            },
            Part::code_execution_result(r) => PartView::CodeExecutionResult {
                outcome: r.outcome,
                output: opt_str_view(r.output),
            },
            Part::functionCall(f) => PartView::FunctionCall {
                id: opt_str_view(f.id),
                name: f.name@,
                args: f.args,
            },
            Part::functionResponse(f) => PartView::FunctionResponse {
                id: opt_str_view(f.id),
                name: f.name@,
                response: f.response,
            },
            Part::fileData(f) => PartView::FileData {
                mime_type: opt_str_view(f.mimeType),
                file_url: f.fileUrl@,
            },
        }
    }
}

/// The views of a sequence of parts.
pub open spec fn parts_view(ps: Seq<Part>) -> Seq<PartView> {
    ps.map_values(|p: Part| p@)
}

/// Two fragments of the same streamable kind, which merge into one.
pub open spec fn mergeable(a: PartView, b: PartView) -> bool {
    match (a, b) {
        (PartView::Text(_), PartView::Text(_)) => true,
        (PartView::InlineData { .. }, PartView::InlineData { .. }) => true,
        (PartView::ExecutableCode { .. }, PartView::ExecutableCode { .. }) => true,
        (PartView::CodeExecutionResult { .. }, PartView::CodeExecutionResult { .. }) => true,
        _ => false,
    }
}

/// The fragment that `b` continues `a` into: the streamed string of `b` is appended to that of
/// `a`, and the other fields of `a` are kept. An absent execution output is replaced by the
/// incoming one.
pub open spec fn joined(a: PartView, b: PartView) -> PartView {
    match (a, b) {
        (PartView::Text(s), PartView::Text(t)) => PartView::Text(s + t),
        (PartView::InlineData { mime_type, data }, PartView::InlineData { data: d2, .. }) =>
            PartView::InlineData { mime_type, data: data + d2 },
        (
            PartView::ExecutableCode { language, code },
            PartView::ExecutableCode { code: c2, .. },
        ) => PartView::ExecutableCode { language, code: code + c2 },
        (
            PartView::CodeExecutionResult { outcome, output },
            PartView::CodeExecutionResult { output: o2, .. },
        ) => PartView::CodeExecutionResult {
            outcome,
            output: match output {
                Some(s) => Some(
                    match o2 {
                        Some(t) => s + t,
                        None => s,
                    },
                ),
                None => o2,
            },
        },
        _ => a,
    }
}

/// The merge rule: the first incoming fragment continues the last existing one when both
/// are of the same streamable kind, and is appended otherwise. Incoming fragments after the
/// first take no part.
pub open spec fn merged(existing: Seq<PartView>, incoming: Seq<PartView>) -> Seq<PartView> {
    if incoming.len() == 0 {
        existing
    } else if existing.len() > 0 && mergeable(existing.last(), incoming[0]) {
        existing.drop_last().push(joined(existing.last(), incoming[0]))
    } else {
        existing.push(incoming[0])
    }
}

/// The streamed string that a fragment carries: the text, the payload, the code, or the
/// execution output; nothing for the other kinds.
pub open spec fn streamed(p: PartView) -> Seq<char> {
    match p {
        PartView::Text(t) => t,
        PartView::InlineData { data, .. } => data,
        PartView::ExecutableCode { code, .. } => code,
        PartView::CodeExecutionResult { output: Some(o), .. } => o,
        _ => seq![],
    }
}

/// The streamed strings of `ps`, in order.
pub open spec fn streamed_all(ps: Seq<PartView>) -> Seq<char>
    decreases ps.len(),
{
    if ps.len() == 0 {
        seq![]
    } else {
        streamed_all(ps.drop_last()) + streamed(ps.last())
    }
}

/// Merging keeps the existing fragments in order, touching at most the last one, and the
/// streamed content afterwards is the existing content followed by that of the first incoming
/// fragment: nothing of it is lost and nothing is repeated.
pub proof fn lemma_merge_keeps_order(existing: Seq<PartView>, incoming: Seq<PartView>)
    requires
        incoming.len() > 0,
    ensures
        merged(existing, incoming).len() == existing.len() || merged(existing, incoming).len()
            == existing.len() + 1,
        existing.len() > 0 ==> merged(existing, incoming).subrange(0, existing.len() - 1)
            == existing.drop_last(),
        existing.len() == 0 ==> merged(existing, incoming) == seq![incoming[0]],
        streamed_all(merged(existing, incoming)) == streamed_all(existing) + streamed(incoming[0]),
{
    let r = merged(existing, incoming);
    if existing.len() > 0 && mergeable(existing.last(), incoming[0]) {
        assert(r.drop_last() =~= existing.drop_last());
        assert(r.subrange(0, existing.len() - 1) =~= existing.drop_last());
        let x = existing.last();
        let y = incoming[0];
        assert(streamed(joined(x, y)) =~= streamed(x) + streamed(y));
    } else {
        assert(r.drop_last() =~= existing);
        if existing.len() > 0 {
            assert(r.subrange(0, existing.len() - 1) =~= existing.drop_last());
        } else {
            assert(r =~= seq![incoming[0]]);
        }
    }
}

impl InlineData {
    pub fn new(mime_type: String, data: String) -> (r: InlineData)
        ensures
            r.mime_type@ == mime_type@,
            r.data@ == data@,
    {
        InlineData { mime_type, data }
    }

    pub fn mime_type(&self) -> (r: &String)
        ensures
            r@ == self.mime_type@,
    {
        &self.mime_type
    }

    pub fn data(&self) -> (r: &String)
        ensures
            r@ == self.data@,
    {
        &self.data
    }
}

impl ExecutableCode {
    pub fn new(language: Language, code: String) -> (r: ExecutableCode)
        ensures
            r.language == language,
            r.code@ == code@,
    {
        ExecutableCode { language, code }
    }

    pub fn language(&self) -> (r: &Language)
        ensures
            *r == self.language,
    {
        &self.language
    }

    pub fn code(&self) -> (r: &String)
        ensures
            r@ == self.code@,
    {
        &self.code
    }
}

impl FunctionCall {
    pub fn new(id: Option<String>, name: String, args: Option<serde_json::Value>) -> (r:
        FunctionCall)
        ensures
            opt_str_view(r.id) == opt_str_view(id),
            r.name@ == name@,
            r.args == args,
    {
        FunctionCall { id, name, args }
    }
}

impl FunctionResponse {
    pub fn new(id: Option<String>, name: String, response: serde_json::Value) -> (r:
        FunctionResponse)
        ensures
            opt_str_view(r.id) == opt_str_view(id),
            r.name@ == name@,
            r.response == response,
    {
        FunctionResponse { id, name, response }
    }
}

impl FileData {
    #[allow(non_snake_case)]
    pub fn new(mimeType: Option<String>, fileUrl: String) -> (r: FileData)
        ensures
            opt_str_view(r.mimeType) == opt_str_view(mimeType),
            r.fileUrl@ == fileUrl@,
    {
        FileData { mimeType, fileUrl }
    }
}

impl CodeExecuteResult {
    pub fn new(outcome: Outcome, output: Option<String>) -> (r: CodeExecuteResult)
        ensures
            r.outcome == outcome,
            opt_str_view(r.output) == opt_str_view(output),
    {
        CodeExecuteResult { outcome, output }
    }

    pub fn outcome(&self) -> (r: &Outcome)
        ensures
            *r == self.outcome,
    {
        &self.outcome
    }

    pub fn output(&self) -> (r: &Option<String>)
        ensures
            opt_str_view(*r) == opt_str_view(self.output),
    {
        &self.output
    }
}

/// A tool that the model may use.
#[allow(non_camel_case_types)]
#[derive(Debug, Clone)]
pub enum Tool {
    /// Usually an empty object.
    google_search(serde_json::Value),
    /// Function declarations, each a structured value.
    functionDeclarations(Vec<serde_json::Value>),
    /// Usually an empty object.
    code_execution(serde_json::Value),
}

/// The body of one request to the remote API, borrowing its parts.
pub struct GeminiRequestBody<'a> {
    pub system_instruction: Option<&'a SystemInstruction>,
    pub tools: Option<&'a [Tool]>,
    pub contents: &'a [&'a Chat],
    pub generation_config: Option<&'a serde_json::Value>,
}

impl<'a> GeminiRequestBody<'a> {
    pub fn new(
        system_instruction: Option<&'a SystemInstruction>,
        tools: Option<&'a [Tool]>,
        contents: &'a [&'a Chat],
        generation_config: Option<&'a serde_json::Value>,
    ) -> (r: GeminiRequestBody<'a>)
        ensures
            r.system_instruction == system_instruction,
            r.tools == tools,
            r.contents == contents,
            r.generation_config == generation_config,
    {
        GeminiRequestBody { system_instruction, tools, contents, generation_config }
    }
}

/// Joins two fragments when [`mergeable`], else hands both back unchanged.
fn join_parts(last: Part, incoming: Part) -> (r: (Part, Option<Part>))
    ensures
        mergeable(last@, incoming@) ==> r.0@ == joined(last@, incoming@) && r.1.is_none(),
        !mergeable(last@, incoming@) ==> r.0@ == last@ && r.1 == Some(incoming),
{
    match (last, incoming) {
        (Part::text(mut s), Part::text(t)) => {
            s.append(t.as_str());
            (Part::text(s), None)
        },
        (Part::inline_data(mut d), Part::inline_data(e)) => {
            d.data.append(e.data.as_str());
            (Part::inline_data(d), None)
        },
        (Part::executable_code(mut c), Part::executable_code(e)) => {
            c.code.append(e.code.as_str());
            (Part::executable_code(c), None)
        },
        (Part::code_execution_result(mut r), Part::code_execution_result(e)) => {
            match r.output {
                Some(mut s) => {
                    match e.output {
                        Some(t) => {
                            s.append(t.as_str());
                        },
                        None => {},
                    }
                    r.output = Some(s);
                },
                None => {
                    r.output = e.output;
                },
            }
            (Part::code_execution_result(r), None)
        },
        (last, incoming) => (last, Some(incoming)),
    }
}

/// Merges `updator` into `updating` by the rule of [`merged`].
pub fn concatenate_parts(updating: &mut Vec<Part>, updator: Vec<Part>)
    ensures
        parts_view(final(updating)@) == merged(parts_view(old(updating)@), parts_view(updator@)),
{
    if updator.len() == 0 {
        return ;
    }
    let ghost inc = parts_view(updator@);
    let mut updator = updator;
    let incoming = updator.swap_remove(0);
    if updating.len() > 0 {
        let last = updating.pop().unwrap();
        let (first, second) = join_parts(last, incoming);
        updating.push(first);
        match second {
            Some(p) => {
                updating.push(p);
            },
            None => {},
        }
    } else {
        updating.push(incoming);
    }
    assert(parts_view(updating@) =~= merged(parts_view(old(updating)@), inc));
}

/// One speaker's turn.
#[derive(Debug, Clone)]
pub struct Chat {
    pub role: Role,
    pub parts: Vec<Part>,
}

/// The mathematical value of a [`Chat`].
pub struct ChatView {
    pub role: Role,
    pub parts: Seq<PartView>,
}

impl View for Chat {
    type V = ChatView;

    open spec fn view(&self) -> ChatView {
        ChatView { role: self.role, parts: parts_view(self.parts@) }
    }
}

impl Chat {
    pub fn new(role: Role, parts: Vec<Part>) -> (r: Chat)
        ensures
            r.role == role,
            r.parts@ == parts@,
    {
        Chat { role, parts }
    }

    pub fn role(&self) -> (r: &Role)
        ensures
            *r == self.role,
    {
        &self.role
    }

    pub fn parts(&self) -> (r: &Vec<Part>)
        ensures
            r@ == self.parts@,
    {
        &self.parts
    }

    pub fn parts_mut(&mut self) -> (r: &mut Vec<Part>)
        ensures
            *r == old(self).parts,
            final(self).role == old(self).role,
            final(self).parts == *final(r),
    {
        &mut self.parts
    }
}

/// Instructions given to the model apart from the conversation.
#[derive(Debug, Clone)]
pub struct SystemInstruction {
    pub parts: Vec<Part>,
}

impl SystemInstruction {
    pub fn new(parts: Vec<Part>) -> (r: SystemInstruction)
        ensures
            r.parts@ == parts@,
    {
        SystemInstruction { parts }
    }

    /// An instruction made of one text fragment.
    pub fn from_str(prompt: String) -> (r: SystemInstruction)
        ensures
            parts_view(r.parts@) == seq![PartView::Text(prompt@)],
    {
        let mut parts: Vec<Part> = Vec::new();
        parts.push(Part::text(prompt));
        proof {
            assert(parts_view(parts@) =~= seq![PartView::Text(prompt@)]);
        }
        SystemInstruction { parts }
    }
}

} // verus!

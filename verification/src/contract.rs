//! Wire shapes of the terminal command roles: the catalog a provider
//! advertises and the execution stream a surface consumes.

use vstd::prelude::*;

verus! {

/// A wire field that may be absent, explicitly null, or carry a value.
pub type OptionalValue<T> = Option<Option<T>>;

/// Requests the validated catalog; it carries no fields.
#[derive(Clone, Copy, Debug, PartialEq, Eq, Structural)]
pub struct CatalogRequest {}

/// The validated aggregate catalog.
#[derive(Clone, Debug)]
pub struct CatalogResponse {
    pub commands: Vec<CommandDefinition>,
}

/// One command that a provider contributes to the terminal surface.
#[derive(Clone, Debug)]
pub struct CommandDefinition {
    pub id: String,
    pub path: Vec<String>,
    pub summary: String,
    pub description: String,
    pub parameters: Vec<CommandParameter>,
    pub output_formats: Vec<OutputFormat>,
}

/// One positional argument, option, or flag of a command.
#[derive(Clone, Debug)]
pub struct CommandParameter {
    pub id: String,
    pub kind: ParameterKind,
    pub long: OptionalValue<String>,
    pub short: OptionalValue<String>,
    pub value_name: OptionalValue<String>,
    pub description: String,
    pub required: bool,
    pub multiple: bool,
    pub choices: Vec<String>,
}

#[derive(Clone, Copy, Debug, PartialEq, Eq, Structural)]
pub enum ParameterKind {
    Positional,
    Option,
    Flag,
}

#[derive(Clone, Copy, Debug, PartialEq, Eq, Structural)]
pub enum OutputFormat {
    Text,
    Json,
}

#[derive(Clone, Copy, Debug, PartialEq, Eq, Structural)]
pub enum CatalogError {
    CatalogInvalid,
}

/// Opens one command execution stream.
#[derive(Clone, Debug)]
pub struct ExecuteOpen {
    pub id: String,
    pub arguments_json: String,
    pub output_format: OutputFormat,
}

/// One chunk of command output.
#[derive(Clone, Debug)]
pub struct ExecuteMessage {
    pub kind: OutputKind,
    pub content_type: ContentType,
    pub content: String,
}

#[derive(Clone, Copy, Debug, PartialEq, Eq, Structural)]
pub enum OutputKind {
    Stdout,
    Stderr,
    Progress,
    Result,
}

#[derive(Clone, Copy, Debug, PartialEq, Eq, Structural)]
pub enum ContentType {
    Text,
    Json,
}

/// Structured details of a failed execution.
#[derive(Clone, Debug)]
pub struct ExecutionFailedPayload {
    pub reason_code: String,
    pub message: String,
    pub details_json: String,
}

/// Domain errors of one command execution.
#[derive(Clone, Debug)]
pub enum ExecuteError {
    InvalidArguments,
    PermissionDenied,
    NotFound,
    OutputLimitExceeded,
    ExecutionFailed { payload: ExecutionFailedPayload },
}

/// The mathematical model of a command definition.
pub struct CommandView {
    pub id: Seq<char>,
    pub path: Seq<Seq<char>>,
    pub summary: Seq<char>,
    pub description: Seq<char>,
    pub parameters: Seq<ParameterView>,
    pub output_formats: Seq<OutputFormat>,
}

/// The mathematical model of a command parameter.
pub struct ParameterView {
    pub id: Seq<char>,
    pub kind: ParameterKind,
    pub long: Option<Option<Seq<char>>>,
    pub short: Option<Option<Seq<char>>>,
    pub value_name: Option<Option<Seq<char>>>,
    pub description: Seq<char>,
    pub required: bool,
    pub multiple: bool,
    pub choices: Seq<Seq<char>>,
}

/// The characters of each string of a list.
pub open spec fn strings_view(v: Seq<String>) -> Seq<Seq<char>> {
    v.map_values(|s: String| s@)
}

/// The model of an optional wire string.
pub open spec fn optional_view(v: OptionalValue<String>) -> Option<Option<Seq<char>>> {
    match v {
        None => None,
        Some(None) => Some(None),
        Some(Some(s)) => Some(Some(s@)),
    }
}

/// The models of the commands of a catalog.
pub open spec fn catalog_view(v: Seq<CommandDefinition>) -> Seq<CommandView> {
    v.map_values(|c: CommandDefinition| c@)
}

impl View for CommandParameter {
    type V = ParameterView;

    open spec fn view(&self) -> ParameterView {
        ParameterView {
            id: self.id@,
            kind: self.kind,
            long: optional_view(self.long),
            short: optional_view(self.short),
            value_name: optional_view(self.value_name),
            description: self.description@,
            required: self.required,
            multiple: self.multiple,
            choices: strings_view(self.choices@),
        }
    }
}

impl View for CommandDefinition {
    type V = CommandView;

    open spec fn view(&self) -> CommandView {
        CommandView {
            id: self.id@,
            path: strings_view(self.path@),
            summary: self.summary@,
            description: self.description@,
            parameters: self.parameters@.map_values(|p: CommandParameter| p@),
            output_formats: self.output_formats@,
        }
    }
}

impl CommandDefinition {
    /// A copy with the same model.
    pub fn duplicate(&self) -> (r: CommandDefinition)
        ensures
            r@ == self@,
    {
        let mut parameters: Vec<CommandParameter> = Vec::new();
        let mut i: usize = 0;
        while i < self.parameters.len()
            invariant
                i <= self.parameters.len(),
                parameters@.len() == i,
                forall|k: int| 0 <= k < i ==> #[trigger] parameters@[k]@ == self.parameters@[k]@,
            decreases self.parameters.len() - i,
        {
            parameters.push(self.parameters[i].duplicate());
            i = i + 1;
        }
        assert(parameters@.map_values(|p: CommandParameter| p@) =~= self.parameters@.map_values(
            |p: CommandParameter| p@,
        ));
        let mut formats: Vec<OutputFormat> = Vec::new();
        let mut j: usize = 0;
        while j < self.output_formats.len()
            invariant
                j <= self.output_formats.len(),
                formats@ == self.output_formats@.subrange(0, j as int),
            decreases self.output_formats.len() - j,
        {
            formats.push(self.output_formats[j]);
            j = j + 1;
            assert(formats@ =~= self.output_formats@.subrange(0, j as int));
        }
        assert(formats@ =~= self.output_formats@);
        CommandDefinition {
            id: self.id.clone(),
            path: copy_strings(&self.path),
            summary: self.summary.clone(),
            description: self.description.clone(),
            parameters,
            output_formats: formats,
        }
    }
}

impl CommandParameter {
    /// A copy with the same model.
    pub fn duplicate(&self) -> (r: CommandParameter)
        ensures
            r@ == self@,
    {
        CommandParameter {
            id: self.id.clone(),
            kind: self.kind,
            long: copy_optional(&self.long),
            short: copy_optional(&self.short),
            value_name: copy_optional(&self.value_name),
            description: self.description.clone(),
            required: self.required,
            multiple: self.multiple,
            choices: copy_strings(&self.choices),
        }
    }
}

/// Copies a list of strings element by element.
pub fn copy_strings(v: &Vec<String>) -> (r: Vec<String>)
    ensures
        r@ == v@,
{
    let mut out: Vec<String> = Vec::new();
    let mut i: usize = 0;
    while i < v.len()
        invariant
            i <= v.len(),
            out@ == v@.subrange(0, i as int),
        decreases v.len() - i,
    {
        out.push(v[i].clone());
        i = i + 1;
        assert(out@ =~= v@.subrange(0, i as int));
    }
    assert(out@ =~= v@);
    out
}

/// Copies an optional wire string.
pub fn copy_optional(v: &OptionalValue<String>) -> (r: OptionalValue<String>)
    ensures
        r == *v,
{
    match v {
        None => None,
        Some(None) => Some(None),
        Some(Some(s)) => Some(Some(s.clone())),
    }
}

} // verus!

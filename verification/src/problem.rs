//! What can be wrong with the documents.

use vstd::prelude::*;
use vstd::string::StringExecFns;
use crate::text::{concat3, concat5};

verus! {

/// A reason for giving up. `S` is `String` in a value that is handed out, and a sequence of
/// characters in specifications.
#[derive(Debug)]
pub enum Problem<S> {
    /// A file does not have the extension of a JSON file.
    NotJson { path: S },
    /// A document has no member `components`.
    NoComponents { path: S },
    /// The member `components` of a document is not an object.
    ComponentsNotObject { path: S },
    /// The member `components` of a document has no member `schemas`.
    NoSchemas { path: S },
    /// The member `schemas` of the components is not an object.
    SchemasNotObject { path: S },
    /// A component has a name under which a component is already known.
    DuplicateComponent { path: S, name: S },
    /// A reference brings in a member that the object around it already has.
    Overwritten { file: S, key: S },
    /// A reference inside an object leads to something that is not an object.
    NotAnObject { reference: S },
    /// A reference is not written as one.
    BadReference { file: S, reference: S },
    /// A reference leads to a component that is not known.
    UnknownReference { file: S, reference: S },
    /// A reference in a method leads to a component that is not known.
    UnknownMethodReference { file: S, reference: S },
    /// A document has no member `methods` whose references could be replaced.
    NoMethods { path: S },
    /// The member `methods` of a document is not an object.
    MethodsNotObject { path: S },
    /// A document has no member `methods` that could be merged.
    NoMethodsToMerge { path: S },
    /// The member `methods` of a document is not an array.
    MethodsNotArray { path: S },
    /// A method is not an object.
    MethodNotObject { path: S },
    /// A method has no member `name`.
    MethodWithoutName { path: S },
    /// The name of a method is not a string.
    MethodNameNotString { path: S },
    /// A method has the name of an earlier one.
    DuplicateMethod { path: S, name: S },
}

/// A problem as it is handed out.
pub type Error = Problem<String>;

/// A problem as specifications speak of it.
pub type ErrorView = Problem<Seq<char>>;

impl View for Problem<String> {
    type V = Problem<Seq<char>>;

    open spec fn view(&self) -> Problem<Seq<char>> {
        match self {
            Problem::NotJson { path } => Problem::NotJson { path: path@ },
            Problem::NoComponents { path } => Problem::NoComponents { path: path@ },
            Problem::ComponentsNotObject { path } => Problem::ComponentsNotObject { path: path@ },
            Problem::NoSchemas { path } => Problem::NoSchemas { path: path@ },
            Problem::SchemasNotObject { path } => Problem::SchemasNotObject { path: path@ },
            Problem::DuplicateComponent { path, name } => Problem::DuplicateComponent { path: path@, name: name@ },
            Problem::Overwritten { file, key } => Problem::Overwritten { file: file@, key: key@ },
            Problem::NotAnObject { reference } => Problem::NotAnObject { reference: reference@ },
            Problem::BadReference { file, reference } => Problem::BadReference {
                file: file@,
                reference: reference@,
            },
            Problem::UnknownReference { file, reference } => Problem::UnknownReference {
                file: file@,
                reference: reference@,
            },
            Problem::UnknownMethodReference { file, reference } => Problem::UnknownMethodReference {
                file: file@,
                reference: reference@,
            },
            Problem::NoMethods { path } => Problem::NoMethods { path: path@ },
            Problem::MethodsNotObject { path } => Problem::MethodsNotObject { path: path@ },
            Problem::NoMethodsToMerge { path } => Problem::NoMethodsToMerge { path: path@ },
            Problem::MethodsNotArray { path } => Problem::MethodsNotArray { path: path@ },
            Problem::MethodNotObject { path } => Problem::MethodNotObject { path: path@ },
            Problem::MethodWithoutName { path } => Problem::MethodWithoutName { path: path@ },
            Problem::MethodNameNotString { path } => Problem::MethodNameNotString { path: path@ },
            Problem::DuplicateMethod { path, name } => Problem::DuplicateMethod { path: path@, name: name@ },
        }
    }
}

impl Problem<Seq<char>> {
    /// The message that describes the problem.
    pub open spec fn text(self) -> Seq<char> {
        match self {
            Problem::NotJson { path } => path + " is not a json file"@,
            Problem::NoComponents { path } => "invalid Json RPC format in "@ + path
                + ": should have a 'components' top-level field"@,
            Problem::ComponentsNotObject { path } => "Error parsing "@ + path
                + ": top-level field 'components' should be a json object"@,
            Problem::NoSchemas { path } => "Error parsing "@ + path + ": 'components/schemas' is missing"@,
            Problem::SchemasNotObject { path } => "Error parsing "@ + path
                + ": 'components/schemas' is not a json object"@,
            Problem::DuplicateComponent { path, name } => "Error parsing "@ + path + ": '"@ + name
                + "' component is a duplicate"@,
            Problem::Overwritten { file, key } => "Error parsing "@ + file + ": '"@ + key
                + "' is overwritten multiple times in $ref"@,
            Problem::NotAnObject { reference } => "Invalid reference component "@ + reference
                + ", components must be a JSON object"@,
            Problem::BadReference { file, reference } => "Error parsing "@ + file
                + ": invalid reference format "@ + reference,
            Problem::UnknownReference { file, reference } => "Error paring "@ + file + ": invalid reference "@
                + reference,
            Problem::UnknownMethodReference { file, reference } => "Error parsing "@ + file + ": reference '"@
                + reference + "' does not exists"@,
            Problem::NoMethods { path } => "invalid Json RPC format in "@ + path
                + ": should have a 'methods' top-level field"@,
            Problem::MethodsNotObject { path } => "Error parsing "@ + path + ": 'methods' is not a json object"@,
            Problem::NoMethodsToMerge { path } => "Error parsing "@ + path
                + ": should have a 'methods' top-level field"@,
            Problem::MethodsNotArray { path } => "Error parsing "@ + path
                + ": top-level field 'methods' should be a json array"@,
            Problem::MethodNotObject { path } => "Error parsing "@ + path
                + ": rpc methods should be a json object"@,
            Problem::MethodWithoutName { path } => "Error parsing "@ + path + ": methods should have a name"@,
            Problem::MethodNameNotString { path } => "Error parsing "@ + path
                + ": method name should be a string"@,
            Problem::DuplicateMethod { path, name } => "Error merging "@ + path + ": method '"@ + name
                + "' has already been declared in a previous file"@,
        }
    }
}

impl Problem<String> {
    /// The message that describes the problem.
    pub fn message(&self) -> (message: String)
        ensures
            message@ == self@.text(),
    {
        match self {
            Problem::NotJson { path } => {
                let mut message = path.clone();
                message.append(" is not a json file");
                message
            },
            Problem::NoComponents { path } => concat3(
                "invalid Json RPC format in ",
                path.as_str(),
                ": should have a 'components' top-level field",
            ),
            Problem::ComponentsNotObject { path } => concat3(
                "Error parsing ",
                path.as_str(),
                ": top-level field 'components' should be a json object",
            ),
            Problem::NoSchemas { path } => concat3(
                "Error parsing ",
                path.as_str(),
                ": 'components/schemas' is missing",
            ),
            Problem::SchemasNotObject { path } => concat3(
                "Error parsing ",
                path.as_str(),
                ": 'components/schemas' is not a json object",
            ),
            Problem::DuplicateComponent { path, name } => concat5(
                "Error parsing ",
                path.as_str(),
                ": '",
                name.as_str(),
                "' component is a duplicate",
            ),
            Problem::Overwritten { file, key } => concat5(
                "Error parsing ",
                file.as_str(),
                ": '",
                key.as_str(),
                "' is overwritten multiple times in $ref",
            ),
            Problem::NotAnObject { reference } => concat3(
                "Invalid reference component ",
                reference.as_str(),
                ", components must be a JSON object",
            ),
            Problem::BadReference { file, reference } => {
                let mut message = concat3("Error parsing ", file.as_str(), ": invalid reference format ");
                message.append(reference.as_str());
                message
            },
            Problem::UnknownReference { file, reference } => {
                let mut message = concat3("Error paring ", file.as_str(), ": invalid reference ");
                message.append(reference.as_str());
                message
            },
            Problem::UnknownMethodReference { file, reference } => concat5(
                "Error parsing ",
                file.as_str(),
                ": reference '",
                reference.as_str(),
                "' does not exists",
            ),
            Problem::NoMethods { path } => concat3(
                "invalid Json RPC format in ",
                path.as_str(),
                ": should have a 'methods' top-level field",
            ),
            Problem::MethodsNotObject { path } => concat3(
                "Error parsing ",
                path.as_str(),
                ": 'methods' is not a json object",
            ),
            Problem::NoMethodsToMerge { path } => concat3(
                "Error parsing ",
                path.as_str(),
                ": should have a 'methods' top-level field",
            ),
            Problem::MethodsNotArray { path } => concat3(
                "Error parsing ",
                path.as_str(),
                ": top-level field 'methods' should be a json array",
            ),
            Problem::MethodNotObject { path } => concat3(
                "Error parsing ",
                path.as_str(),
                ": rpc methods should be a json object",
            ),
            Problem::MethodWithoutName { path } => concat3(
                "Error parsing ",
                path.as_str(),
                ": methods should have a name",
            ),
            Problem::MethodNameNotString { path } => concat3(
                "Error parsing ",
                path.as_str(),
                ": method name should be a string",
            ),
            Problem::DuplicateMethod { path, name } => concat5(
                "Error merging ",
                path.as_str(),
                ": method '",
                name.as_str(),
                "' has already been declared in a previous file",
            ),
        }
    }
}

/// What a problem stands for: the same problem, of the same file, name, key or reference.
pub proof fn law_problem_view(a: String, b: String)
    ensures
        (Problem::NotJson { path: a })@ == (ErrorView::NotJson { path: a@ }),
        (Problem::NoComponents { path: a })@ == (ErrorView::NoComponents { path: a@ }),
        (Problem::ComponentsNotObject { path: a })@ == (ErrorView::ComponentsNotObject { path: a@ }),
        (Problem::NoSchemas { path: a })@ == (ErrorView::NoSchemas { path: a@ }),
        (Problem::SchemasNotObject { path: a })@ == (ErrorView::SchemasNotObject { path: a@ }),
        (Problem::DuplicateComponent { path: a, name: b })@ == (ErrorView::DuplicateComponent {
            path: a@,
            name: b@,
        }),
        (Problem::Overwritten { file: a, key: b })@ == (ErrorView::Overwritten { file: a@, key: b@ }),
        (Problem::NotAnObject { reference: a })@ == (ErrorView::NotAnObject { reference: a@ }),
        (Problem::BadReference { file: a, reference: b })@ == (ErrorView::BadReference {
            file: a@,
            reference: b@,
        }),
        (Problem::UnknownReference { file: a, reference: b })@ == (ErrorView::UnknownReference {
            file: a@,
            reference: b@,
        }),
        (Problem::UnknownMethodReference { file: a, reference: b })@ == (ErrorView::UnknownMethodReference {
            file: a@,
            reference: b@,
        }),
        (Problem::NoMethods { path: a })@ == (ErrorView::NoMethods { path: a@ }),
        (Problem::MethodsNotObject { path: a })@ == (ErrorView::MethodsNotObject { path: a@ }),
        (Problem::NoMethodsToMerge { path: a })@ == (ErrorView::NoMethodsToMerge { path: a@ }),
        (Problem::MethodsNotArray { path: a })@ == (ErrorView::MethodsNotArray { path: a@ }),
        (Problem::MethodNotObject { path: a })@ == (ErrorView::MethodNotObject { path: a@ }),
        (Problem::MethodWithoutName { path: a })@ == (ErrorView::MethodWithoutName { path: a@ }),
        (Problem::MethodNameNotString { path: a })@ == (ErrorView::MethodNameNotString { path: a@ }),
        (Problem::DuplicateMethod { path: a, name: b })@ == (ErrorView::DuplicateMethod { path: a@, name: b@ }),
{
}

/// Every message names what the problem is about, between texts that are the same for all files,
/// names, keys and references.
pub proof fn law_messages(a: Seq<char>, b: Seq<char>)
    ensures
        (ErrorView::NotJson { path: a }).text() == a + " is not a json file"@,
        (ErrorView::NoComponents { path: a }).text() == "invalid Json RPC format in "@ + a
            + ": should have a 'components' top-level field"@,
        (ErrorView::ComponentsNotObject { path: a }).text() == "Error parsing "@ + a
            + ": top-level field 'components' should be a json object"@,
        (ErrorView::NoSchemas { path: a }).text() == "Error parsing "@ + a + ": 'components/schemas' is missing"@,
        (ErrorView::SchemasNotObject { path: a }).text() == "Error parsing "@ + a
            + ": 'components/schemas' is not a json object"@,
        (ErrorView::DuplicateComponent { path: a, name: b }).text() == "Error parsing "@ + a + ": '"@ + b
            + "' component is a duplicate"@,
        (ErrorView::Overwritten { file: a, key: b }).text() == "Error parsing "@ + a + ": '"@ + b
            + "' is overwritten multiple times in $ref"@,
        (ErrorView::NotAnObject { reference: a }).text() == "Invalid reference component "@ + a
            + ", components must be a JSON object"@,
        (ErrorView::BadReference { file: a, reference: b }).text() == "Error parsing "@ + a
            + ": invalid reference format "@ + b,
        (ErrorView::UnknownReference { file: a, reference: b }).text() == "Error paring "@ + a
            + ": invalid reference "@ + b,
        (ErrorView::UnknownMethodReference { file: a, reference: b }).text() == "Error parsing "@ + a
            + ": reference '"@ + b + "' does not exists"@,
        (ErrorView::NoMethods { path: a }).text() == "invalid Json RPC format in "@ + a
            + ": should have a 'methods' top-level field"@,
        (ErrorView::MethodsNotObject { path: a }).text() == "Error parsing "@ + a
            + ": 'methods' is not a json object"@,
        (ErrorView::NoMethodsToMerge { path: a }).text() == "Error parsing "@ + a
            + ": should have a 'methods' top-level field"@,
        (ErrorView::MethodsNotArray { path: a }).text() == "Error parsing "@ + a
            + ": top-level field 'methods' should be a json array"@,
        (ErrorView::MethodNotObject { path: a }).text() == "Error parsing "@ + a
            + ": rpc methods should be a json object"@,
        (ErrorView::MethodWithoutName { path: a }).text() == "Error parsing "@ + a
            + ": methods should have a name"@,
        (ErrorView::MethodNameNotString { path: a }).text() == "Error parsing "@ + a
            + ": method name should be a string"@,
        (ErrorView::DuplicateMethod { path: a, name: b }).text() == "Error merging "@ + a + ": method '"@ + b
            + "' has already been declared in a previous file"@,
{
}

} // verus!

//! The abstract syntax tree of GraphQL query documents, and its
//! mathematical model (`Spec*` types, reached through `@`).
//!
//! A float literal is kept as its source text: the tree holds no
//! floating-point numbers. Every node type is `Clone`; the impls, written
//! by hand with the contract that a copy has the same model, are in
//! `ast_copy`.

use vstd::prelude::*;

verus! {

/// A whole query document: its operation definitions and fragment
/// definitions, each in source order.
#[derive(Debug, PartialEq)]
pub struct Document {
    pub operations: Vec<OperationDefinition>,
    pub fragments: Vec<FragmentDefinition>,
}

/// The kind of an operation.
#[derive(Debug, Clone, Copy, PartialEq, Eq, Structural)]
pub enum OperationType {
    Query,
    Mutation,
    Subscription,
}

/// An operation: `query Name($v: T) @dir { ... }` or the shorthand `{ ... }`.
#[derive(Debug, PartialEq)]
pub struct OperationDefinition {
    pub operation: OperationType,
    /// `None` for an anonymous operation.
    pub name: Option<String>,
    pub variable_definitions: Vec<VariableDefinition>,
    pub directives: Vec<Directive>,
    pub selection_set: SelectionSet,
}

/// A variable definition `$name: Type = default`.
#[derive(Debug, PartialEq)]
pub struct VariableDefinition {
    pub name: String,
    pub var_type: Type,
    pub default_value: Option<Value>,
}

/// A type reference: `Name`, `[Type]` or `Type!`.
#[derive(Debug, PartialEq)]
pub enum Type {
    Named(String),
    List(Box<Type>),
    NonNull(Box<Type>),
}

impl Clone for Type {
    fn clone(&self) -> (res: Self)
        ensures
            res@ == self@,
        decreases self,
    {
        match self {
            Type::Named(s) => Type::Named(s.clone()),
            Type::List(inner) => {
                let c: Type = Type::clone(&**inner);
                Type::List(Box::new(c))
            },
            Type::NonNull(inner) => {
                let c: Type = Type::clone(&**inner);
                Type::NonNull(Box::new(c))
            },
        }
    }
}

/// A directive `@name(args)`.
#[derive(Debug, PartialEq)]
pub struct Directive {
    pub name: String,
    pub arguments: Vec<Argument>,
}

/// A fragment definition `fragment Name on Type @dir { ... }`.
#[derive(Debug, PartialEq)]
pub struct FragmentDefinition {
    pub name: String,
    pub type_condition: String,
    pub directives: Vec<Directive>,
    pub selection_set: SelectionSet,
}

/// A selection set `{ selection+ }`.
#[derive(Debug, PartialEq)]
pub struct SelectionSet {
    pub selections: Vec<Selection>,
}

/// A selection: a field, a fragment spread or an inline fragment.
#[derive(Debug, PartialEq)]
pub enum Selection {
    Field(Field),
    FragmentSpread(FragmentSpread),
    InlineFragment(InlineFragment),
}

/// A field `alias: name(args) @dir { ... }`.
#[derive(Debug, PartialEq)]
pub struct Field {
    pub alias: Option<String>,
    pub name: String,
    pub arguments: Vec<Argument>,
    pub directives: Vec<Directive>,
    /// The sub-selection; `None` for a leaf field.
    pub selection_set: Option<SelectionSet>,
}

/// A fragment spread `...Name @dir`.
#[derive(Debug, PartialEq)]
pub struct FragmentSpread {
    pub name: String,
    pub directives: Vec<Directive>,
}

/// An inline fragment `... on Type @dir { ... }` (the type condition may be
/// left out).
#[derive(Debug, PartialEq)]
pub struct InlineFragment {
    pub type_condition: Option<String>,
    pub directives: Vec<Directive>,
    pub selection_set: SelectionSet,
}

/// An argument `name: value`.
#[derive(Debug, PartialEq)]
pub struct Argument {
    pub name: String,
    pub value: Value,
}

/// An input value.
#[derive(Debug, PartialEq)]
pub enum Value {
    /// A variable reference `$name`.
    Variable(String),
    Int(i64),
    /// A float literal, as its source text (for example `"6.022e23"`).
    Float(String),
    String(String),
    Boolean(bool),
    Null,
    /// An enum value: a bare name other than `true`, `false` and `null`.
    Enum(String),
    List(Vec<Value>),
    Object(Vec<(String, Value)>),
}

// ---------------------------------------------------------------------
// The model
// ---------------------------------------------------------------------

pub struct SpecDocument {
    pub operations: Seq<SpecOperation>,
    pub fragments: Seq<SpecFragment>,
}

pub struct SpecOperation {
    pub operation: OperationType,
    pub name: Option<Seq<char>>,
    pub variable_definitions: Seq<SpecVariableDefinition>,
    pub directives: Seq<SpecDirective>,
    pub selection_set: SpecSelectionSet,
}

pub struct SpecVariableDefinition {
    pub name: Seq<char>,
    pub var_type: SpecType,
    pub default_value: Option<SpecValue>,
}

pub enum SpecType {
    Named(Seq<char>),
    List(Box<SpecType>),
    NonNull(Box<SpecType>),
}

pub struct SpecDirective {
    pub name: Seq<char>,
    pub arguments: Seq<SpecArgument>,
}

pub struct SpecFragment {
    pub name: Seq<char>,
    pub type_condition: Seq<char>,
    pub directives: Seq<SpecDirective>,
    pub selection_set: SpecSelectionSet,
}

pub struct SpecSelectionSet {
    pub selections: Seq<SpecSelection>,
}

pub enum SpecSelection {
    Field(SpecField),
    FragmentSpread(SpecFragmentSpread),
    InlineFragment(SpecInlineFragment),
}

pub struct SpecField {
    pub alias: Option<Seq<char>>,
    pub name: Seq<char>,
    pub arguments: Seq<SpecArgument>,
    pub directives: Seq<SpecDirective>,
    pub selection_set: Option<SpecSelectionSet>,
}

pub struct SpecFragmentSpread {
    pub name: Seq<char>,
    pub directives: Seq<SpecDirective>,
}

pub struct SpecInlineFragment {
    pub type_condition: Option<Seq<char>>,
    pub directives: Seq<SpecDirective>,
    pub selection_set: SpecSelectionSet,
}

pub struct SpecArgument {
    pub name: Seq<char>,
    pub value: SpecValue,
}

pub enum SpecValue {
    Variable(Seq<char>),
    Int(int),
    Float(Seq<char>),
    String(Seq<char>),
    Boolean(bool),
    Null,
    Enum(Seq<char>),
    List(Seq<SpecValue>),
    Object(Seq<(Seq<char>, SpecValue)>),
}

pub open spec fn opt_text(o: Option<String>) -> Option<Seq<char>> {
    match o {
        Some(s) => Some(s@),
        None => None,
    }
}

pub open spec fn value_view(v: Value) -> SpecValue
    decreases v,
{
    match v {
        Value::Variable(s) => SpecValue::Variable(s@),
        Value::Int(n) => SpecValue::Int(n as int),
        Value::Float(s) => SpecValue::Float(s@),
        Value::String(s) => SpecValue::String(s@),
        Value::Boolean(b) => SpecValue::Boolean(b),
        Value::Null => SpecValue::Null,
        Value::Enum(s) => SpecValue::Enum(s@),
        Value::List(items) => SpecValue::List(values_view(items@)),
        Value::Object(fields) => SpecValue::Object(entries_view(fields@)),
    }
}

pub open spec fn values_view(s: Seq<Value>) -> Seq<SpecValue>
    decreases s,
{
    if s.len() == 0 {
        seq![]
    } else {
        values_view(s.subrange(0, s.len() - 1)).push(value_view(s[s.len() - 1]))
    }
}

pub open spec fn entries_view(s: Seq<(String, Value)>) -> Seq<(Seq<char>, SpecValue)>
    decreases s,
{
    if s.len() == 0 {
        seq![]
    } else {
        entries_view(s.subrange(0, s.len() - 1)).push(
            (s[s.len() - 1].0@, value_view(s[s.len() - 1].1)),
        )
    }
}

impl View for Value {
    type V = SpecValue;

    open spec fn view(&self) -> SpecValue {
        value_view(*self)
    }
}

impl View for Argument {
    type V = SpecArgument;

    open spec fn view(&self) -> SpecArgument {
        SpecArgument { name: self.name@, value: self.value@ }
    }
}

pub open spec fn arguments_view(s: Seq<Argument>) -> Seq<SpecArgument> {
    s.map_values(|a: Argument| a@)
}

impl View for Directive {
    type V = SpecDirective;

    open spec fn view(&self) -> SpecDirective {
        SpecDirective { name: self.name@, arguments: arguments_view(self.arguments@) }
    }
}

pub open spec fn directives_view(s: Seq<Directive>) -> Seq<SpecDirective> {
    s.map_values(|d: Directive| d@)
}

pub open spec fn type_view(t: Type) -> SpecType
    decreases t,
{
    match t {
        Type::Named(s) => SpecType::Named(s@),
        Type::List(inner) => SpecType::List(Box::new(type_view(*inner))),
        Type::NonNull(inner) => SpecType::NonNull(Box::new(type_view(*inner))),
    }
}

impl View for Type {
    type V = SpecType;

    open spec fn view(&self) -> SpecType {
        type_view(*self)
    }
}

impl View for VariableDefinition {
    type V = SpecVariableDefinition;

    open spec fn view(&self) -> SpecVariableDefinition {
        SpecVariableDefinition {
            name: self.name@,
            var_type: self.var_type@,
            default_value: match self.default_value {
                Some(v) => Some(v@),
                None => None,
            },
        }
    }
}

pub open spec fn variable_definitions_view(s: Seq<VariableDefinition>) -> Seq<
    SpecVariableDefinition,
> {
    s.map_values(|d: VariableDefinition| d@)
}

pub open spec fn selection_set_view(s: SelectionSet) -> SpecSelectionSet
    decreases s,
{
    SpecSelectionSet { selections: selections_view(s.selections@) }
}

pub open spec fn selections_view(s: Seq<Selection>) -> Seq<SpecSelection>
    decreases s,
{
    if s.len() == 0 {
        seq![]
    } else {
        selections_view(s.subrange(0, s.len() - 1)).push(selection_view(s[s.len() - 1]))
    }
}

pub open spec fn selection_view(s: Selection) -> SpecSelection
    decreases s,
{
    match s {
        Selection::Field(f) => SpecSelection::Field(
            SpecField {
                alias: opt_text(f.alias),
                name: f.name@,
                arguments: arguments_view(f.arguments@),
                directives: directives_view(f.directives@),
                selection_set: match f.selection_set {
                    Some(sub) => Some(selection_set_view(sub)),
                    None => None,
                },
            },
        ),
        Selection::FragmentSpread(sp) => SpecSelection::FragmentSpread(
            SpecFragmentSpread { name: sp.name@, directives: directives_view(sp.directives@) },
        ),
        Selection::InlineFragment(inl) => SpecSelection::InlineFragment(
            SpecInlineFragment {
                type_condition: opt_text(inl.type_condition),
                directives: directives_view(inl.directives@),
                selection_set: selection_set_view(inl.selection_set),
            },
        ),
    }
}

impl View for SelectionSet {
    type V = SpecSelectionSet;

    open spec fn view(&self) -> SpecSelectionSet {
        selection_set_view(*self)
    }
}

impl View for Selection {
    type V = SpecSelection;

    open spec fn view(&self) -> SpecSelection {
        selection_view(*self)
    }
}

impl View for OperationDefinition {
    type V = SpecOperation;

    open spec fn view(&self) -> SpecOperation {
        SpecOperation {
            operation: self.operation,
            name: opt_text(self.name),
            variable_definitions: variable_definitions_view(self.variable_definitions@),
            directives: directives_view(self.directives@),
            selection_set: self.selection_set@,
        }
    }
}

impl View for FragmentDefinition {
    type V = SpecFragment;

    open spec fn view(&self) -> SpecFragment {
        SpecFragment {
            name: self.name@,
            type_condition: self.type_condition@,
            directives: directives_view(self.directives@),
            selection_set: self.selection_set@,
        }
    }
}

impl View for Document {
    type V = SpecDocument;

    open spec fn view(&self) -> SpecDocument {
        SpecDocument {
            operations: self.operations@.map_values(|o: OperationDefinition| o@),
            fragments: self.fragments@.map_values(|f: FragmentDefinition| f@),
        }
    }
}

// ---------------------------------------------------------------------
// Facts about the models of sequences
// ---------------------------------------------------------------------

pub proof fn lemma_values_view_push(s: Seq<Value>, v: Value)
    ensures
        values_view(s.push(v)) == values_view(s).push(value_view(v)),
{
    assert(s.push(v).subrange(0, s.len() as int) =~= s);
}

pub proof fn lemma_values_view_index(s: Seq<Value>)
    ensures
        values_view(s).len() == s.len(),
        forall|i: int| 0 <= i < s.len() ==> #[trigger] values_view(s)[i] == value_view(s[i]),
    decreases s.len(),
{
    if s.len() > 0 {
        let p = s.subrange(0, s.len() - 1);
        lemma_values_view_index(p);
        assert forall|i: int| 0 <= i < s.len() implies #[trigger] values_view(s)[i] == value_view(
            s[i],
        ) by {
            if i < s.len() - 1 {
                assert(p[i] == s[i]);
            }
        }
    }
}

pub proof fn lemma_entries_view_push(s: Seq<(String, Value)>, e: (String, Value))
    ensures
        entries_view(s.push(e)) == entries_view(s).push((e.0@, value_view(e.1))),
{
    assert(s.push(e).subrange(0, s.len() as int) =~= s);
}

pub proof fn lemma_entries_view_index(s: Seq<(String, Value)>)
    ensures
        entries_view(s).len() == s.len(),
        forall|i: int|
            0 <= i < s.len() ==> #[trigger] entries_view(s)[i] == (s[i].0@, value_view(s[i].1)),
    decreases s.len(),
{
    if s.len() > 0 {
        let p = s.subrange(0, s.len() - 1);
        lemma_entries_view_index(p);
        assert forall|i: int| 0 <= i < s.len() implies #[trigger] entries_view(s)[i] == (
            s[i].0@,
            value_view(s[i].1),
        ) by {
            if i < s.len() - 1 {
                assert(p[i] == s[i]);
            }
        }
    }
}

pub proof fn lemma_selections_view_push(s: Seq<Selection>, v: Selection)
    ensures
        selections_view(s.push(v)) == selections_view(s).push(selection_view(v)),
{
    assert(s.push(v).subrange(0, s.len() as int) =~= s);
}

pub proof fn lemma_selections_view_index(s: Seq<Selection>)
    ensures
        selections_view(s).len() == s.len(),
        forall|i: int| 0 <= i < s.len() ==> #[trigger] selections_view(s)[i] == selection_view(s[i]),
    decreases s.len(),
{
    if s.len() > 0 {
        let p = s.subrange(0, s.len() - 1);
        lemma_selections_view_index(p);
        assert forall|i: int| 0 <= i < s.len() implies #[trigger] selections_view(s)[i]
            == selection_view(s[i]) by {
            if i < s.len() - 1 {
                assert(p[i] == s[i]);
            }
        }
    }
}

} // verus!

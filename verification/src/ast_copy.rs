//! Copies of syntax trees (`Clone`), each with the same model as the tree
//! it copies.

use vstd::prelude::*;

use crate::ast::{
    arguments_view, directives_view, lemma_entries_view_push, lemma_selections_view_push,
    lemma_values_view_push, selection_view, selections_view, variable_definitions_view, Argument,
    Directive, Document, Field, FragmentDefinition, FragmentSpread, InlineFragment,
    OperationDefinition, Selection, SelectionSet, Value, VariableDefinition,
};

verus! {

impl Clone for Value {
    fn clone(&self) -> (res: Self)
        ensures
            res@ == self@,
    {
        copy_value(self)
    }
}

/// A copy of a value.
#[verifier::loop_isolation(false)]
pub fn copy_value(v: &Value) -> (res: Value)
    ensures
        res@ == v@,
    decreases v,
{
    {
        match v {
            Value::Variable(s) => Value::Variable(s.clone()),
            Value::Int(n) => Value::Int(*n),
            Value::Float(s) => Value::Float(s.clone()),
            Value::String(s) => Value::String(s.clone()),
            Value::Boolean(b) => Value::Boolean(*b),
            Value::Null => Value::Null,
            Value::Enum(s) => Value::Enum(s.clone()),
            Value::List(items) => {
                let mut out: Vec<Value> = Vec::new();
                let mut i: usize = 0;
                while i < items.len()
                    invariant
                        i <= items@.len(),
                        crate::ast::values_view(out@) == crate::ast::values_view(
                            items@.subrange(0, i as int),
                        ),
                    decreases items.len() - i,
                {
                    let c = copy_value(&items[i]);
                    proof {
                        lemma_values_view_push(out@, c);
                        lemma_values_view_push(items@.subrange(0, i as int), items@[i as int]);
                        assert(items@.subrange(0, i + 1) =~= items@.subrange(0, i as int).push(
                            items@[i as int],
                        ));
                    }
                    out.push(c);
                    i = i + 1;
                }
                proof {
                    assert(items@.subrange(0, items@.len() as int) =~= items@);
                }
                Value::List(out)
            },
            Value::Object(fields) => {
                let mut out: Vec<(String, Value)> = Vec::new();
                let mut i: usize = 0;
                while i < fields.len()
                    invariant
                        i <= fields@.len(),
                        crate::ast::entries_view(out@) == crate::ast::entries_view(
                            fields@.subrange(0, i as int),
                        ),
                    decreases fields.len() - i,
                {
                    let name = fields[i].0.clone();
                    let v = copy_value(&fields[i].1);
                    let e = (name, v);
                    proof {
                        lemma_entries_view_push(out@, e);
                        lemma_entries_view_push(fields@.subrange(0, i as int), fields@[i as int]);
                        assert(fields@.subrange(0, i + 1) =~= fields@.subrange(0, i as int).push(
                            fields@[i as int],
                        ));
                    }
                    out.push(e);
                    i = i + 1;
                }
                proof {
                    assert(fields@.subrange(0, fields@.len() as int) =~= fields@);
                }
                Value::Object(out)
            },
        }
    }
}

impl Clone for Argument {
    fn clone(&self) -> (res: Self)
        ensures
            res@ == self@,
    {
        Argument { name: self.name.clone(), value: copy_value(&self.value) }
    }
}

/// A copy of a list of arguments.
pub fn copy_arguments(v: &Vec<Argument>) -> (res: Vec<Argument>)
    ensures
        arguments_view(res@) == arguments_view(v@),
{
    let mut out: Vec<Argument> = Vec::new();
    let mut i: usize = 0;
    while i < v.len()
        invariant
            i <= v@.len(),
            arguments_view(out@) == arguments_view(v@.subrange(0, i as int)),
        decreases v.len() - i,
    {
        let c = v[i].clone();
        let ghost prev = out@;
        out.push(c);
        proof {
            assert(out@ == prev.push(c));
            assert(arguments_view(out@) =~= arguments_view(prev).push(c@));
            assert(v@.subrange(0, i + 1) =~= v@.subrange(0, i as int).push(v@[i as int]));
            assert(arguments_view(v@.subrange(0, i + 1)) =~= arguments_view(v@.subrange(0, i as int)).push(
                v@[i as int]@,
            ));
        }
        i = i + 1;
    }
    proof {
        assert(v@.subrange(0, v@.len() as int) =~= v@);
    }
    out
}

impl Clone for Directive {
    fn clone(&self) -> (res: Self)
        ensures
            res@ == self@,
    {
        Directive { name: self.name.clone(), arguments: copy_arguments(&self.arguments) }
    }
}

/// A copy of a list of directives.
pub fn copy_directives(v: &Vec<Directive>) -> (res: Vec<Directive>)
    ensures
        directives_view(res@) == directives_view(v@),
{
    let mut out: Vec<Directive> = Vec::new();
    let mut i: usize = 0;
    while i < v.len()
        invariant
            i <= v@.len(),
            directives_view(out@) == directives_view(v@.subrange(0, i as int)),
        decreases v.len() - i,
    {
        let c = v[i].clone();
        let ghost prev = out@;
        out.push(c);
        proof {
            assert(out@ == prev.push(c));
            assert(directives_view(out@) =~= directives_view(prev).push(c@));
            assert(v@.subrange(0, i + 1) =~= v@.subrange(0, i as int).push(v@[i as int]));
            assert(directives_view(v@.subrange(0, i + 1)) =~= directives_view(v@.subrange(0, i as int)).push(
                v@[i as int]@,
            ));
        }
        i = i + 1;
    }
    proof {
        assert(v@.subrange(0, v@.len() as int) =~= v@);
    }
    out
}

impl Clone for VariableDefinition {
    fn clone(&self) -> (res: Self)
        ensures
            res@ == self@,
    {
        VariableDefinition {
            name: self.name.clone(),
            var_type: self.var_type.clone(),
            default_value: match &self.default_value {
                Some(v) => Some(copy_value(v)),
                None => None,
            },
        }
    }
}

impl Clone for FragmentSpread {
    fn clone(&self) -> (res: Self)
        ensures
            selection_view(Selection::FragmentSpread(res)) == selection_view(
                Selection::FragmentSpread(*self),
            ),
    {
        FragmentSpread { name: self.name.clone(), directives: copy_directives(&self.directives) }
    }
}

/// A copy of a selection set.
pub fn copy_selection_set(s: &SelectionSet) -> (res: SelectionSet)
    ensures
        res@ == s@,
    decreases s,
{
    let mut out: Vec<Selection> = Vec::new();
    let mut i: usize = 0;
    while i < s.selections.len()
        invariant
            i <= s.selections@.len(),
            selections_view(out@) == selections_view(s.selections@.subrange(0, i as int)),
        decreases s.selections.len() - i,
    {
        let c = copy_selection(&s.selections[i]);
        proof {
            lemma_selections_view_push(out@, c);
            lemma_selections_view_push(s.selections@.subrange(0, i as int), s.selections@[i as int]);
            assert(s.selections@.subrange(0, i + 1) =~= s.selections@.subrange(0, i as int).push(
                s.selections@[i as int],
            ));
        }
        out.push(c);
        i = i + 1;
    }
    proof {
        assert(s.selections@.subrange(0, s.selections@.len() as int) =~= s.selections@);
    }
    SelectionSet { selections: out }
}

/// A copy of a selection.
pub fn copy_selection(s: &Selection) -> (res: Selection)
    ensures
        res@ == s@,
    decreases s,
{
    match s {
        Selection::Field(f) => Selection::Field(
            Field {
                alias: match &f.alias {
                    Some(a) => Some(a.clone()),
                    None => None,
                },
                name: f.name.clone(),
                arguments: copy_arguments(&f.arguments),
                directives: copy_directives(&f.directives),
                selection_set: match &f.selection_set {
                    Some(sub) => Some(copy_selection_set(sub)),
                    None => None,
                },
            },
        ),
        Selection::FragmentSpread(sp) => Selection::FragmentSpread(
            FragmentSpread { name: sp.name.clone(), directives: copy_directives(&sp.directives) },
        ),
        Selection::InlineFragment(inl) => Selection::InlineFragment(
            InlineFragment {
                type_condition: match &inl.type_condition {
                    Some(a) => Some(a.clone()),
                    None => None,
                },
                directives: copy_directives(&inl.directives),
                selection_set: copy_selection_set(&inl.selection_set),
            },
        ),
    }
}

impl Clone for SelectionSet {
    fn clone(&self) -> (res: Self)
        ensures
            res@ == self@,
    {
        copy_selection_set(self)
    }
}

impl Clone for Selection {
    fn clone(&self) -> (res: Self)
        ensures
            res@ == self@,
    {
        copy_selection(self)
    }
}

impl Clone for Field {
    fn clone(&self) -> (res: Self)
        ensures
            selection_view(Selection::Field(res)) == selection_view(Selection::Field(*self)),
    {
        let s = copy_selection(&Selection::Field(
            Field {
                alias: match &self.alias {
                    Some(a) => Some(a.clone()),
                    None => None,
                },
                name: self.name.clone(),
                arguments: copy_arguments(&self.arguments),
                directives: copy_directives(&self.directives),
                selection_set: match &self.selection_set {
                    Some(sub) => Some(copy_selection_set(sub)),
                    None => None,
                },
            },
        ));
        match s {
            Selection::Field(f) => f,
            _ => {
                proof {
                    assert(false);
                }
                Field {
                    alias: None,
                    name: String::new(),
                    arguments: Vec::new(),
                    directives: Vec::new(),
                    selection_set: None,
                }
            },
        }
    }
}

impl Clone for InlineFragment {
    fn clone(&self) -> (res: Self)
        ensures
            selection_view(Selection::InlineFragment(res)) == selection_view(
                Selection::InlineFragment(*self),
            ),
    {
        InlineFragment {
            type_condition: match &self.type_condition {
                Some(a) => Some(a.clone()),
                None => None,
            },
            directives: copy_directives(&self.directives),
            selection_set: copy_selection_set(&self.selection_set),
        }
    }
}

impl Clone for OperationDefinition {
    fn clone(&self) -> (res: Self)
        ensures
            res@ == self@,
    {
        let mut vars: Vec<VariableDefinition> = Vec::new();
        let mut i: usize = 0;
        while i < self.variable_definitions.len()
            invariant
                i <= self.variable_definitions@.len(),
                variable_definitions_view(vars@) == variable_definitions_view(
                    self.variable_definitions@.subrange(0, i as int),
                ),
            decreases self.variable_definitions.len() - i,
        {
            let c = self.variable_definitions[i].clone();
            let ghost prev = vars@;
            vars.push(c);
            proof {
                let src = self.variable_definitions@;
                assert(vars@ == prev.push(c));
                assert(variable_definitions_view(vars@) =~= variable_definitions_view(prev).push(c@));
                assert(src.subrange(0, i + 1) =~= src.subrange(0, i as int).push(src[i as int]));
                assert(variable_definitions_view(src.subrange(0, i + 1)) =~= variable_definitions_view(
                    src.subrange(0, i as int),
                ).push(src[i as int]@));
            }
            i = i + 1;
        }
        proof {
            assert(self.variable_definitions@.subrange(0, self.variable_definitions@.len() as int)
                =~= self.variable_definitions@);
        }
        OperationDefinition {
            operation: self.operation,
            name: match &self.name {
                Some(a) => Some(a.clone()),
                None => None,
            },
            variable_definitions: vars,
            directives: copy_directives(&self.directives),
            selection_set: copy_selection_set(&self.selection_set),
        }
    }
}

impl Clone for FragmentDefinition {
    fn clone(&self) -> (res: Self)
        ensures
            res@ == self@,
    {
        FragmentDefinition {
            name: self.name.clone(),
            type_condition: self.type_condition.clone(),
            directives: copy_directives(&self.directives),
            selection_set: copy_selection_set(&self.selection_set),
        }
    }
}

impl Clone for Document {
    fn clone(&self) -> (res: Self)
        ensures
            res@ == self@,
    {
        let mut ops: Vec<OperationDefinition> = Vec::new();
        let mut i: usize = 0;
        while i < self.operations.len()
            invariant
                i <= self.operations@.len(),
                ops@.map_values(|o: OperationDefinition| o@) == self.operations@.subrange(
                    0,
                    i as int,
                ).map_values(|o: OperationDefinition| o@),
            decreases self.operations.len() - i,
        {
            let c = self.operations[i].clone();
            let ghost prev = ops@;
            ops.push(c);
            proof {
                let src = self.operations@;
                assert(ops@ == prev.push(c));
                assert(ops@.map_values(|o: OperationDefinition| o@) =~= prev.map_values(|o: OperationDefinition| o@).push(c@));
                assert(src.subrange(0, i + 1) =~= src.subrange(0, i as int).push(src[i as int]));
                assert(src.subrange(0, i + 1).map_values(|o: OperationDefinition| o@) =~= src.subrange(0, i as int).map_values(|o: OperationDefinition| o@).push(src[i as int]@));
            }
            i = i + 1;
        }
        let mut frags: Vec<FragmentDefinition> = Vec::new();
        let mut j: usize = 0;
        while j < self.fragments.len()
            invariant
                j <= self.fragments@.len(),
                frags@.map_values(|f: FragmentDefinition| f@) == self.fragments@.subrange(
                    0,
                    j as int,
                ).map_values(|f: FragmentDefinition| f@),
            decreases self.fragments.len() - j,
        {
            let c = self.fragments[j].clone();
            let ghost prev = frags@;
            frags.push(c);
            proof {
                let src = self.fragments@;
                assert(frags@ == prev.push(c));
                assert(frags@.map_values(|f: FragmentDefinition| f@) =~= prev.map_values(|f: FragmentDefinition| f@).push(c@));
                assert(src.subrange(0, j + 1) =~= src.subrange(0, j as int).push(src[j as int]));
                assert(src.subrange(0, j + 1).map_values(|f: FragmentDefinition| f@) =~= src.subrange(0, j as int).map_values(|f: FragmentDefinition| f@).push(src[j as int]@));
            }
            j = j + 1;
        }
        proof {
            assert(self.operations@.subrange(0, self.operations@.len() as int) =~= self.operations@);
            assert(self.fragments@.subrange(0, self.fragments@.len() as int) =~= self.fragments@);
        }
        Document { operations: ops, fragments: frags }
    }
}

} // verus!

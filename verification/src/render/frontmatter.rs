//! The YAML block at the head of a document.

use anyhow::Error;
use serde_yaml::{Mapping, Value};
use vstd::prelude::*;

use crate::errors::{text_result, ErrorModel, ErrorText};
use crate::text::texts;

verus! {

/// The value of a field.
pub enum FieldValue {
    Text(String),
    List(Vec<String>),
    Flag(bool),
}

/// What a [`FieldValue`] stands for.
pub enum FieldModel {
    Text(Seq<char>),
    List(Seq<Seq<char>>),
    Flag(bool),
}

impl View for FieldValue {
    type V = FieldModel;

    open spec fn view(&self) -> FieldModel {
        match *self {
            FieldValue::Text(text) => FieldModel::Text(text@),
            FieldValue::List(items) => FieldModel::List(texts(items@)),
            FieldValue::Flag(flag) => FieldModel::Flag(flag),
        }
    }
}

/// No field has this key.
pub open spec fn is_new_key(fields: Seq<(Seq<char>, FieldModel)>, key: Seq<char>) -> bool {
    forall|i: int| 0 <= i < fields.len() ==> (#[trigger] fields[i]).0 != key
}

#[verifier::external_type_specification]
#[verifier::external_body]
pub struct ExMapping(serde_yaml::Mapping);

/// The fields of a mapping, in the order in which they are written.
pub uninterp spec fn mapping_fields(mapping: Mapping) -> Seq<(Seq<char>, FieldModel)>;

/// The YAML text that `serde_yaml` writes for fields, or what its error says.
pub uninterp spec fn yaml_text(fields: Seq<(Seq<char>, FieldModel)>) -> Result<
    Seq<char>,
    ErrorModel,
>;

/// `serde_yaml::Mapping::new`: a mapping without fields.
#[verifier::external_body]
fn mapping_new() -> (mapping: Mapping)
    ensures
        mapping_fields(mapping).len() == 0,
{
    Mapping::new()
}

/// `serde_yaml::Mapping::insert`: a field with a new key comes behind the others.
#[verifier::external_body]
fn mapping_insert(mapping: &mut Mapping, key: &str, value: FieldValue)
    requires
        is_new_key(mapping_fields(*old(mapping)), key@),
    ensures
        mapping_fields(*final(mapping)) == mapping_fields(*old(mapping)).push((key@, value@)),
{
    let value = match value {
        FieldValue::Text(text) => Value::String(text),
        FieldValue::List(items) => Value::Sequence(items.into_iter().map(Value::String).collect()),
        FieldValue::Flag(flag) => Value::Bool(flag),
    };
    mapping.insert(Value::String(key.to_owned()), value);
}

/// `serde_yaml::to_string`: the YAML text of a mapping. An error comes with the text that
/// `anyhow::Error` shows of it and its causes in the alternate form.
#[verifier::external_body]
fn mapping_to_string(mapping: &Mapping) -> (r: Result<String, ErrorText>)
    ensures
        text_result(r) == yaml_text(mapping_fields(*mapping)),
{
    match serde_yaml::to_string(mapping) {
        Ok(text) => Ok(text),
        Err(error) => Err(ErrorText {
            message: error.to_string(),
            chain: format!("{:#}", Error::from(error)),
        }),
    }
}

/// A field of the frontmatter.
pub struct Field {
    pub key: &'static str,
    pub value: FieldValue,
}

/// The views of fields.
pub open spec fn field_views(fields: Seq<Field>) -> Seq<(Seq<char>, FieldModel)> {
    fields.map_values(|f: Field| (f.key@, f.value@))
}

/// No two fields have the same key.
pub open spec fn distinct_keys(fields: Seq<(Seq<char>, FieldModel)>) -> bool {
    forall|i: int, j: int|
        0 <= i < j < fields.len() ==> (#[trigger] fields[i]).0 != (#[trigger] fields[j]).0
}

/// Writes fields as YAML.
pub fn write_yaml(fields: Vec<Field>) -> (r: Result<String, ErrorText>)
    requires
        distinct_keys(field_views(fields@)),
    ensures
        text_result(r) == yaml_text(field_views(fields@)),
{
    let ghost views = field_views(fields@);
    let mut mapping = mapping_new();
    assert(mapping_fields(mapping) =~= views.take(0));
    for field in it: fields
        invariant
            it.seq() == fields@,
            views == field_views(fields@),
            distinct_keys(views),
            mapping_fields(mapping) == views.take(it.index() as int),
    {
        proof {
            let i = it.index() as int;
            assert(views[i] == (field.key@, field.value@));
            assert(is_new_key(mapping_fields(mapping), field.key@)) by {
                assert forall|j: int| 0 <= j < i implies (#[trigger] views.take(i)[j]).0
                    != field.key@ by {
                    assert(views[j].0 != views[i].0);
                }
            }
            assert(views.take(i + 1) =~= views.take(i).push(views[i]));
        }
        mapping_insert(&mut mapping, field.key, field.value);
    }
    assert(views.take(views.len() as int) =~= views);
    mapping_to_string(&mapping)
}

} // verus!

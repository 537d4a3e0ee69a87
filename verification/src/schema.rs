//! Metadata schemas: the expected type of each metadata field, which fields
//! are required, and validation of metadata against them.
use vstd::prelude::*;
use crate::json::{JsonModel, JsonValue, json_view, elements_view, members_view, lemma_elements_view, lemma_members_view};
use crate::metadata_filter::{find_key, lemma_find_key, member_value, lookup_member};
use crate::text::{decimal, push_decimal};
use crate::metadata_filter::strings_view;
use crate::assoc::{distinct_keys, pairs_map, lemma_pairs_map, lemma_pairs_map_ext};

verus! {

/// Errors of schema validation.
pub enum SchemaError {
    MissingField(String),
    InvalidType { field: String, expected: String, found: String },
    InvalidArrayElement { field: String, index: usize, expected: String, found: String },
}

/// The mathematical value of a `SchemaError`.
pub enum SchemaErrorModel {
    MissingField(Seq<char>),
    InvalidType { field: Seq<char>, expected: Seq<char>, found: Seq<char> },
    InvalidArrayElement { field: Seq<char>, index: usize, expected: Seq<char>, found: Seq<char> },
}

impl View for SchemaError {
    type V = SchemaErrorModel;

    open spec fn view(&self) -> SchemaErrorModel {
        match self {
            SchemaError::MissingField(s) => SchemaErrorModel::MissingField(s@),
            SchemaError::InvalidType { field, expected, found } => SchemaErrorModel::InvalidType {
                field: field@,
                expected: expected@,
                found: found@,
            },
            SchemaError::InvalidArrayElement { field, index, expected, found } =>
                SchemaErrorModel::InvalidArrayElement {
                    field: field@,
                    index: *index,
                    expected: expected@,
                    found: found@,
                },
        }
    }
}

/// The type of a metadata field.
pub enum FieldType {
    String,
    Number,
    Boolean,
    /// An array whose non-null elements have the element type.
    Array(Box<FieldType>),
    /// An object whose listed members, where present, have the listed types.
    Object(Vec<(String, FieldType)>),
}

/// The mathematical value of a `FieldType`.
pub enum FieldTypeModel {
    String,
    Number,
    Boolean,
    Array(Box<FieldTypeModel>),
    Object(Seq<(Seq<char>, FieldTypeModel)>),
}

/// The model of a field type.
pub open spec fn field_type_view(t: FieldType) -> FieldTypeModel
    decreases t, 1nat, 0int,
{
    match t {
        FieldType::String => FieldTypeModel::String,
        FieldType::Number => FieldTypeModel::Number,
        FieldType::Boolean => FieldTypeModel::Boolean,
        FieldType::Array(inner) => FieldTypeModel::Array(Box::new(field_type_view(*inner))),
        FieldType::Object(fields) => FieldTypeModel::Object(field_types_view(fields, fields.len() as int)),
    }
}

/// The names and type models of the first `n` fields.
pub open spec fn field_types_view(fs: Vec<(String, FieldType)>, n: int) -> Seq<(Seq<char>, FieldTypeModel)>
    decreases fs, 0nat, n,
{
    if n <= 0 || n > fs.len() {
        Seq::empty()
    } else {
        field_types_view(fs, n - 1).push((fs[n - 1].0@, field_type_view(fs[n - 1].1)))
    }
}

impl View for FieldType {
    type V = FieldTypeModel;

    open spec fn view(&self) -> FieldTypeModel {
        field_type_view(*self)
    }
}

/// `field_types_view` lists the names and type models, in order.
pub proof fn lemma_field_types_view(fs: Vec<(String, FieldType)>, n: int)
    requires
        0 <= n <= fs.len(),
    ensures
        field_types_view(fs, n).len() == n,
        forall|i: int| 0 <= i < n ==> #[trigger] field_types_view(fs, n)[i] == (fs[i].0@, field_type_view(fs[i].1)),
    decreases n,
{
    if n > 0 {
        lemma_field_types_view(fs, n - 1);
    }
}

/// The name of a field type, as error messages give it.
pub open spec fn type_name_of(t: FieldTypeModel) -> Seq<char>
    decreases t,
{
    match t {
        FieldTypeModel::String => "String"@,
        FieldTypeModel::Number => "Number"@,
        FieldTypeModel::Boolean => "Boolean"@,
        FieldTypeModel::Array(inner) => "Array<"@ + type_name_of(*inner) + ">"@,
        FieldTypeModel::Object(_) => "Object"@,
    }
}

/// The name of the kind of a JSON value, as error messages give it.
pub open spec fn value_type_name(v: JsonModel) -> Seq<char> {
    match v {
        JsonModel::Null => "Null"@,
        JsonModel::Bool(_) => "Boolean"@,
        JsonModel::Number(_) => "Number"@,
        JsonModel::String(_) => "String"@,
        JsonModel::Array(_) => "Array"@,
        JsonModel::Object(_) => "Object"@,
    }
}

/// The name under which an array element is checked: `name[index]`.
pub open spec fn element_name(name: Seq<char>, index: nat) -> Seq<char> {
    name + "["@ + decimal(index) + "]"@
}

/// The name under which an object member is checked: `name.key`.
pub open spec fn member_name(name: Seq<char>, key: Seq<char>) -> Seq<char> {
    name + "."@ + key
}

/// What a value's check against a field type gives: `Ok` for null and for a
/// value of the type; for a wrong kind of value `InvalidType` with the two
/// type names; for an array, the first failing non-null element, where an
/// `InvalidType` becomes `InvalidArrayElement` with the element's index; for
/// an object, the first listed member present whose check fails.
pub open spec fn spec_validate_value(t: FieldTypeModel, name: Seq<char>, v: JsonModel) -> Result<(), SchemaErrorModel>
    decreases t, 1nat, 0int,
{
    if v is Null {
        Ok(())
    } else {
        let wrong = Err(SchemaErrorModel::InvalidType { field: name, expected: type_name_of(t), found: value_type_name(v) });
        match t {
            FieldTypeModel::String => if v is String { Ok(()) } else { wrong },
            FieldTypeModel::Number => if v is Number { Ok(()) } else { wrong },
            FieldTypeModel::Boolean => if v is Bool { Ok(()) } else { wrong },
            FieldTypeModel::Array(_) => match v {
                JsonModel::Array(items) => validate_elements(t, name, items, items.len() as int),
                _ => wrong,
            },
            FieldTypeModel::Object(fields) => match v {
                JsonModel::Object(ms) => validate_members(t, name, ms, fields.len() as int),
                _ => wrong,
            },
        }
    }
}

/// An element's error as its array reports it.
pub open spec fn as_element_error(e: SchemaErrorModel, name: Seq<char>, index: nat) -> SchemaErrorModel {
    match e {
        SchemaErrorModel::InvalidType { field, expected, found } =>
            SchemaErrorModel::InvalidArrayElement { field: name, index: index as usize, expected, found },
        _ => e,
    }
}

/// The check of the first `n` elements of an array against the element type
/// of `t`, stopping at the first failing non-null element.
pub open spec fn validate_elements(t: FieldTypeModel, name: Seq<char>, items: Seq<JsonModel>, n: int) -> Result<(), SchemaErrorModel>
    decreases t, 0nat, n,
{
    if n <= 0 || n > items.len() || !(t is Array) {
        Ok(())
    } else {
        match validate_elements(t, name, items, n - 1) {
            Err(e) => Err(e),
            Ok(()) => if items[n - 1] is Null {
                Ok(())
            } else {
                match spec_validate_value(*t->Array_0, element_name(name, (n - 1) as nat), items[n - 1]) {
                    Ok(()) => Ok(()),
                    Err(e) => Err(as_element_error(e, name, (n - 1) as nat)),
                }
            },
        }
    }
}

/// The check of the members of an object against the first `n` listed
/// fields of `t`, stopping at the first failure.
pub open spec fn validate_members(
    t: FieldTypeModel,
    name: Seq<char>,
    ms: Seq<(Seq<char>, JsonModel)>,
    n: int,
) -> Result<(), SchemaErrorModel>
    decreases t, 0nat, n,
{
    if n <= 0 || !(t is Object) || n > t->Object_0.len() {
        Ok(())
    } else {
        match validate_members(t, name, ms, n - 1) {
            Err(e) => Err(e),
            Ok(()) => {
                let (key, ft) = t->Object_0[n - 1];
                match find_key(ms, key) {
                    Some(i) => {
                        proof {
                            lemma_find_key(ms, key);
                        }
                        spec_validate_value(ft, member_name(name, key), ms[i].1)
                    },
                    None => Ok(()),
                }
            },
        }
    }
}

/// A value fits a type: null fits every type; a string, number or boolean
/// fits its own type; an array fits an array type when each element fits
/// the element type; an object fits an object type when each listed field
/// that the object has fits that field's type.
pub open spec fn value_ok(t: FieldTypeModel, v: JsonModel) -> bool
    decreases t, 1nat, 0int,
{
    if v is Null {
        true
    } else {
        match t {
            FieldTypeModel::String => v is String,
            FieldTypeModel::Number => v is Number,
            FieldTypeModel::Boolean => v is Bool,
            FieldTypeModel::Array(_) => match v {
                JsonModel::Array(items) => elements_ok(t, items, items.len() as int),
                _ => false,
            },
            FieldTypeModel::Object(fields) => match v {
                JsonModel::Object(ms) => members_ok(t, ms, fields.len() as int),
                _ => false,
            },
        }
    }
}

/// Each of the first `n` elements fits the element type of `t`.
pub open spec fn elements_ok(t: FieldTypeModel, items: Seq<JsonModel>, n: int) -> bool
    decreases t, 0nat, n,
{
    if n <= 0 || n > items.len() || !(t is Array) {
        true
    } else {
        elements_ok(t, items, n - 1) && value_ok(*t->Array_0, items[n - 1])
    }
}

/// Each of the first `n` listed fields of `t` that the members hold fits
/// its type.
pub open spec fn members_ok(t: FieldTypeModel, ms: Seq<(Seq<char>, JsonModel)>, n: int) -> bool
    decreases t, 0nat, n,
{
    if n <= 0 || !(t is Object) || n > t->Object_0.len() {
        true
    } else {
        members_ok(t, ms, n - 1) && match find_key(ms, t->Object_0[n - 1].0) {
            Some(i) => {
                proof {
                    lemma_find_key(ms, t->Object_0[n - 1].0);
                }
                value_ok(t->Object_0[n - 1].1, ms[i].1)
            },
            None => true,
        }
    }
}

/// A value passes validation against a type, under any name, exactly when
/// it fits the type.
pub proof fn law_validate_ok_iff_fits(t: FieldTypeModel, name: Seq<char>, v: JsonModel)
    ensures
        spec_validate_value(t, name, v) is Ok <==> value_ok(t, v),
    decreases t, 1nat, 0int,
{
    if !(v is Null) {
        match t {
            FieldTypeModel::Array(_) => match v {
                JsonModel::Array(items) => lemma_elements_ok(t, name, items, items.len() as int),
                _ => {},
            },
            FieldTypeModel::Object(fields) => match v {
                JsonModel::Object(ms) => lemma_members_ok(t, name, ms, fields.len() as int),
                _ => {},
            },
            _ => {},
        }
    }
}

proof fn lemma_elements_ok(t: FieldTypeModel, name: Seq<char>, items: Seq<JsonModel>, n: int)
    ensures
        validate_elements(t, name, items, n) is Ok <==> elements_ok(t, items, n),
    decreases t, 0nat, n,
{
    if !(n <= 0 || n > items.len() || !(t is Array)) {
        lemma_elements_ok(t, name, items, n - 1);
        law_validate_ok_iff_fits(*t->Array_0, element_name(name, (n - 1) as nat), items[n - 1]);
    }
}

proof fn lemma_members_ok(t: FieldTypeModel, name: Seq<char>, ms: Seq<(Seq<char>, JsonModel)>, n: int)
    ensures
        validate_members(t, name, ms, n) is Ok <==> members_ok(t, ms, n),
    decreases t, 0nat, n,
{
    if !(n <= 0 || !(t is Object) || n > t->Object_0.len()) {
        lemma_members_ok(t, name, ms, n - 1);
        let (key, ft) = t->Object_0[n - 1];
        match find_key(ms, key) {
            Some(i) => {
                lemma_find_key(ms, key);
                law_validate_ok_iff_fits(ft, member_name(name, key), ms[i].1);
            },
            None => {},
        }
    }
}

/// The model of a validation result.
pub open spec fn check_view(r: Result<(), SchemaError>) -> Result<(), SchemaErrorModel> {
    match r {
        Ok(()) => Ok(()),
        Err(e) => Err(e@),
    }
}

/// The name of the kind of a JSON value.
pub fn get_value_type_name(value: &JsonValue) -> (r: String)
    ensures
        r@ == value_type_name(value@),
{
    match value {
        JsonValue::Null => String::from_str("Null"),
        JsonValue::Bool(_) => String::from_str("Boolean"),
        JsonValue::Number(_) => String::from_str("Number"),
        JsonValue::String(_) => String::from_str("String"),
        JsonValue::Array(_) => String::from_str("Array"),
        JsonValue::Object(_) => String::from_str("Object"),
    }
}

impl FieldType {
    /// The type's name for error messages: `String`, `Number`, `Boolean`,
    /// `Array<inner>`, `Object`.
    pub fn name_of_type(&self) -> (r: String)
        ensures
            r@ == type_name_of(self@),
        decreases self,
    {
        match self {
            FieldType::String => String::from_str("String"),
            FieldType::Number => String::from_str("Number"),
            FieldType::Boolean => String::from_str("Boolean"),
            FieldType::Array(inner) => {
                let inner_name = inner.name_of_type();
                let mut r = String::from_str("Array<");
                r.append(inner_name.as_str());
                r.append(">");
                r
            },
            FieldType::Object(_) => String::from_str("Object"),
        }
    }

    /// Validates a value against this field type; null is always accepted.
    pub fn validate_value(&self, field_name: &str, value: &JsonValue) -> (r: Result<(), SchemaError>)
        ensures
            check_view(r) == spec_validate_value(self@, field_name@, value@),
        decreases self,
    {
        if let JsonValue::Null = value {
            return Ok(());
        }
        match self {
            FieldType::String => {
                if let JsonValue::String(_) = value {
                    Ok(())
                } else {
                    Err(SchemaError::InvalidType {
                        field: String::from_str(field_name),
                        expected: self.name_of_type(),
                        found: get_value_type_name(value),
                    })
                }
            },
            FieldType::Number => {
                if let JsonValue::Number(_) = value {
                    Ok(())
                } else {
                    Err(SchemaError::InvalidType {
                        field: String::from_str(field_name),
                        expected: self.name_of_type(),
                        found: get_value_type_name(value),
                    })
                }
            },
            FieldType::Boolean => {
                if let JsonValue::Bool(_) = value {
                    Ok(())
                } else {
                    Err(SchemaError::InvalidType {
                        field: String::from_str(field_name),
                        expected: self.name_of_type(),
                        found: get_value_type_name(value),
                    })
                }
            },
            FieldType::Array(element_type) => {
                match value {
                    JsonValue::Array(array) => {
                        let ghost im = elements_view(*array, array.len() as int);
                        proof {
                            lemma_elements_view(*array, array.len() as int);
                        }
                        let mut index: usize = 0;
                        while index < array.len()
                            invariant
                                index <= array.len(),
                                im == elements_view(*array, array.len() as int),
                                im.len() == array.len(),
                                forall|j: int| 0 <= j < array.len() ==> #[trigger] im[j] == json_view(array[j]),
                                validate_elements(self@, field_name@, im, index as int) == Ok::<(), SchemaErrorModel>(()),
                                *self == FieldType::Array(*element_type),
                                value@ == JsonModel::Array(im),
                            decreases array.len() - index,
                        {
                            let element = &array[index];
                            if let JsonValue::Null = element {
                            } else {
                                let mut name = String::from_str(field_name);
                                name.append("[");
                                push_decimal(&mut name, index);
                                name.append("]");
                                proof {
                                    assert(decreases_to!(*self => (*self)->Array_0));
                                }
                                match element_type.validate_value(name.as_str(), element) {
                                    Ok(()) => {},
                                    Err(e) => {
                                        let mapped = match e {
                                            SchemaError::InvalidType { field: _, expected, found } =>
                                                SchemaError::InvalidArrayElement {
                                                    field: String::from_str(field_name),
                                                    index,
                                                    expected,
                                                    found,
                                                },
                                            other => other,
                                        };
                                        proof {
                                            lemma_validate_elements_stops(self@, field_name@, im, index + 1, array.len() as int);
                                        }
                                        return Err(mapped);
                                    },
                                }
                            }
                            index = index + 1;
                        }
                        Ok(())
                    },
                    _ => {
                        let expected = self.name_of_type();
                        Err(SchemaError::InvalidType {
                            field: String::from_str(field_name),
                            expected,
                            found: get_value_type_name(value),
                        })
                    },
                }
            },
            FieldType::Object(fields) => {
                match value {
                    JsonValue::Object(obj) => {
                        let ghost fm = field_types_view(*fields, fields.len() as int);
                        let ghost om = members_view(*obj, obj.len() as int);
                        proof {
                            lemma_field_types_view(*fields, fields.len() as int);
                            lemma_members_view(*obj, obj.len() as int);
                        }
                        let mut i: usize = 0;
                        while i < fields.len()
                            invariant
                                i <= fields.len(),
                                fm == field_types_view(*fields, fields.len() as int),
                                fm.len() == fields.len(),
                                forall|j: int| 0 <= j < fields.len() ==> #[trigger] fm[j] == (fields[j].0@, field_type_view(fields[j].1)),
                                om == members_view(*obj, obj.len() as int),
                                validate_members(self@, field_name@, om, i as int) == Ok::<(), SchemaErrorModel>(()),
                                *self == FieldType::Object(*fields),
                                value@ == JsonModel::Object(om),
                            decreases fields.len() - i,
                        {
                            match lookup_member(value, &fields[i].0) {
                                Some(field_value) => {
                                    let name = {
                                        let mut n = String::from_str(field_name);
                                        n.append(".");
                                        n.append(fields[i].0.as_str());
                                        n
                                    };
                                    proof {
                                        assert(decreases_to!(*self => (*self)->Object_0));
                                        assert(decreases_to!(*fields => fields[i as int]));
                                        assert(decreases_to!(fields[i as int] => fields[i as int].1));
                                    }
                                    match fields[i].1.validate_value(name.as_str(), field_value) {
                                        Ok(()) => {},
                                        Err(e) => {
                                            proof {
                                                lemma_validate_members_stops(self@, field_name@, om, i + 1, fields.len() as int);
                                            }
                                            return Err(e);
                                        },
                                    }
                                },
                                None => {},
                            }
                            i = i + 1;
                        }
                        Ok(())
                    },
                    _ => {
                        let expected = self.name_of_type();
                        Err(SchemaError::InvalidType {
                            field: String::from_str(field_name),
                            expected,
                            found: get_value_type_name(value),
                        })
                    },
                }
            },
        }
    }
}

/// Once an element fails, the array's check fails with its error.
proof fn lemma_validate_elements_stops(t: FieldTypeModel, name: Seq<char>, items: Seq<JsonModel>, n: int, m: int)
    requires
        0 < n <= m <= items.len(),
        validate_elements(t, name, items, n) is Err,
    ensures
        validate_elements(t, name, items, m) == validate_elements(t, name, items, n),
    decreases m - n,
{
    if m > n {
        lemma_validate_elements_stops(t, name, items, n, m - 1);
    }
}

/// Once a member fails, the object's check fails with its error.
proof fn lemma_validate_members_stops(t: FieldTypeModel, name: Seq<char>, ms: Seq<(Seq<char>, JsonModel)>, n: int, m: int)
    requires
        0 < n <= m,
        t is Object,
        m <= t->Object_0.len(),
        validate_members(t, name, ms, n) is Err,
    ensures
        validate_members(t, name, ms, m) == validate_members(t, name, ms, n),
    decreases m - n,
{
    if m > n {
        lemma_validate_members_stops(t, name, ms, n, m - 1);
    }
}

// ---------------------------------------------------------------------------
// Schemas
// ---------------------------------------------------------------------------

/// A metadata schema: the type of each named field, and which fields are
/// required.  Field names and required names do not repeat.
pub struct MetadataSchema {
    pub fields: Vec<(String, FieldType)>,
    pub required: Vec<String>,
}

/// The index of the first required name that the object lacks.
pub open spec fn first_missing(required: Seq<Seq<char>>, ms: Seq<(Seq<char>, JsonModel)>) -> Option<int>
    decreases required.len(),
{
    if required.len() == 0 {
        None
    } else if find_key(ms, required[0]) is None {
        Some(0)
    } else {
        match first_missing(required.drop_first(), ms) {
            Some(i) => Some(i + 1),
            None => None,
        }
    }
}

/// `first_missing` gives the first required name that the object lacks.
pub proof fn lemma_first_missing(required: Seq<Seq<char>>, ms: Seq<(Seq<char>, JsonModel)>)
    ensures
        match first_missing(required, ms) {
            Some(i) => 0 <= i < required.len() && find_key(ms, required[i]) is None
                && forall|j: int| 0 <= j < i ==> #[trigger] find_key(ms, required[j]) is Some,
            None => forall|j: int| 0 <= j < required.len() ==> #[trigger] find_key(ms, required[j]) is Some,
        },
    decreases required.len(),
{
    if required.len() > 0 {
        lemma_first_missing(required.drop_first(), ms);
        assert forall|j: int| 0 < j < required.len() implies #[trigger] required[j] == required.drop_first()[j - 1] by {}
    }
}

/// The check of the object's members against the first `n` fields, stopping
/// at the first failure; a field the object lacks is not checked.
pub open spec fn check_fields(fields: Seq<(Seq<char>, FieldTypeModel)>, ms: Seq<(Seq<char>, JsonModel)>, n: int) -> Result<(), SchemaErrorModel>
    decreases n,
{
    if n <= 0 || n > fields.len() {
        Ok(())
    } else {
        match check_fields(fields, ms, n - 1) {
            Err(e) => Err(e),
            Ok(()) => match find_key(ms, fields[n - 1].0) {
                Some(j) => spec_validate_value(fields[n - 1].1, fields[n - 1].0, ms[j].1),
                None => Ok(()),
            },
        }
    }
}

/// What validating metadata against a schema gives: metadata that is not an
/// object is an `InvalidType` of the field `metadata`; then the first
/// missing required field; then the first present field whose value fails.
pub open spec fn spec_validate_schema(
    fields: Seq<(Seq<char>, FieldTypeModel)>,
    required: Seq<Seq<char>>,
    metadata: JsonModel,
) -> Result<(), SchemaErrorModel> {
    match metadata {
        JsonModel::Object(ms) => match first_missing(required, ms) {
            Some(i) => Err(SchemaErrorModel::MissingField(required[i])),
            None => check_fields(fields, ms, fields.len() as int),
        },
        _ => Err(SchemaErrorModel::InvalidType {
            field: "metadata"@,
            expected: "Object"@,
            found: value_type_name(metadata),
        }),
    }
}

/// Once a field fails, the whole check fails with its error.
proof fn lemma_check_fields_stops(fields: Seq<(Seq<char>, FieldTypeModel)>, ms: Seq<(Seq<char>, JsonModel)>, n: int, m: int)
    requires
        0 < n <= m <= fields.len(),
        check_fields(fields, ms, n) is Err,
    ensures
        check_fields(fields, ms, m) == check_fields(fields, ms, n),
    decreases m - n,
{
    if m > n {
        lemma_check_fields_stops(fields, ms, n, m - 1);
    }
}

/// The position of the field of that name.
fn position_of_field(fields: &Vec<(String, FieldType)>, key: &String) -> (r: Option<usize>)
    ensures
        match r {
            Some(i) => i < fields.len() && fields[i as int].0@ == key@,
            None => forall|j: int| 0 <= j < fields.len() ==> #[trigger] fields[j].0@ != key@,
        },
{
    let mut i: usize = 0;
    while i < fields.len()
        invariant
            i <= fields.len(),
            forall|j: int| 0 <= j < i ==> #[trigger] fields[j].0@ != key@,
        decreases fields.len() - i,
    {
        if fields[i].0 == *key {
            return Some(i);
        }
        i = i + 1;
    }
    None
}

/// The position of the name.
fn position_of_name(names: &Vec<String>, key: &String) -> (r: Option<usize>)
    ensures
        match r {
            Some(i) => i < names.len() && names@[i as int]@ == key@,
            None => forall|j: int| 0 <= j < names.len() ==> #[trigger] names@[j]@ != key@,
        },
{
    let mut i: usize = 0;
    while i < names.len()
        invariant
            i <= names.len(),
            forall|j: int| 0 <= j < i ==> #[trigger] names@[j]@ != key@,
        decreases names.len() - i,
    {
        if names[i] == *key {
            return Some(i);
        }
        i = i + 1;
    }
    None
}

impl MetadataSchema {
    /// The fields, names with type models, in order.
    pub open spec fn field_list(&self) -> Seq<(Seq<char>, FieldTypeModel)> {
        field_types_view(self.fields, self.fields.len() as int)
    }

    /// The type of each field, by name.
    pub open spec fn field_types(&self) -> Map<Seq<char>, FieldTypeModel> {
        pairs_map(self.field_list(), self.field_list().len() as int)
    }

    /// The names of the required fields.
    pub open spec fn required_names(&self) -> Set<Seq<char>> {
        strings_view(self.required@).to_set()
    }

    /// Names do not repeat.
    pub open spec fn wf(&self) -> bool {
        &&& distinct_keys(self.field_list())
        &&& strings_view(self.required@).no_duplicates()
    }

    /// An empty schema.
    pub fn new() -> (s: Self)
        ensures
            s.wf(),
            s.field_types() == Map::<Seq<char>, FieldTypeModel>::empty(),
            s.required_names() == Set::<Seq<char>>::empty(),
    {
        let s = MetadataSchema { fields: Vec::new(), required: Vec::new() };
        proof {
            assert(strings_view(s.required@) =~= Seq::<Seq<char>>::empty());
            assert(s.required_names() =~= Set::<Seq<char>>::empty());
        }
        s
    }

    /// Validates metadata against this schema.
    pub fn validate(&self, metadata: &JsonValue) -> (r: Result<(), SchemaError>)
        ensures
            check_view(r) == spec_validate_schema(self.field_list(), strings_view(self.required@), metadata@),
    {
        match metadata {
            JsonValue::Object(obj) => {
                let ghost om = members_view(*obj, obj.len() as int);
                let ghost req = strings_view(self.required@);
                proof {
                    lemma_members_view(*obj, obj.len() as int);
                    lemma_first_missing(req, om);
                    lemma_field_types_view(self.fields, self.fields.len() as int);
                }
                let mut i: usize = 0;
                while i < self.required.len()
                    invariant
                        i <= self.required.len(),
                        req == strings_view(self.required@),
                        om == members_view(*obj, obj.len() as int),
                        metadata@ == JsonModel::Object(om),
                        forall|j: int| 0 <= j < i ==> #[trigger] find_key(om, req[j]) is Some,
                        match first_missing(req, om) {
                            Some(k) => 0 <= k < req.len() && find_key(om, req[k]) is None
                                && forall|j: int| 0 <= j < k ==> #[trigger] find_key(om, req[j]) is Some,
                            None => forall|j: int| 0 <= j < req.len() ==> #[trigger] find_key(om, req[j]) is Some,
                        },
                    decreases self.required.len() - i,
                {
                    match lookup_member(metadata, &self.required[i]) {
                        Some(_) => {
                            assert(req[i as int] == self.required@[i as int]@);
                        },
                        None => {
                            proof {
                                assert(req[i as int] == self.required@[i as int]@);
                                let k = first_missing(req, om);
                                assert(k == Some(i as int)) by {
                                    match k {
                                        Some(kk) => {
                                            if kk < i {
                                                assert(find_key(om, req[kk]) is Some);
                                            } else if kk > i {
                                                assert(find_key(om, req[i as int]) is Some);
                                            }
                                        },
                                        None => {
                                            assert(find_key(om, req[i as int]) is Some);
                                        },
                                    }
                                }
                            }
                            return Err(SchemaError::MissingField(self.required[i].clone()));
                        },
                    }
                    i = i + 1;
                }
                let ghost fl = self.field_list();
                let mut f: usize = 0;
                while f < self.fields.len()
                    invariant
                        f <= self.fields.len(),
                        fl == self.field_list(),
                        fl.len() == self.fields.len(),
                        forall|j: int| 0 <= j < self.fields.len() ==> #[trigger] fl[j] == (self.fields[j].0@, field_type_view(self.fields[j].1)),
                        om == members_view(*obj, obj.len() as int),
                        metadata@ == JsonModel::Object(om),
                        first_missing(req, om) is None,
                        req == strings_view(self.required@),
                        check_fields(fl, om, f as int) == Ok::<(), SchemaErrorModel>(()),
                    decreases self.fields.len() - f,
                {
                    match lookup_member(metadata, &self.fields[f].0) {
                        Some(value) => {
                            match self.fields[f].1.validate_value(self.fields[f].0.as_str(), value) {
                                Ok(()) => {},
                                Err(e) => {
                                    proof {
                                        assert(fl[f as int] == (self.fields[f as int].0@, field_type_view(self.fields[f as int].1)));
                                        let j = find_key(om, fl[f as int].0);
                                        assert(j is Some);
                                                                                assert(check_fields(fl, om, f + 1) == Err::<(), SchemaErrorModel>(e@));
                                        lemma_check_fields_stops(fl, om, f + 1, fl.len() as int);
                                    }
                                    return Err(e);
                                },
                            }
                        },
                        None => {},
                    }
                    f = f + 1;
                }
                Ok(())
            },
            _ => Err(SchemaError::InvalidType {
                field: String::from_str("metadata"),
                expected: String::from_str("Object"),
                found: get_value_type_name(metadata),
            }),
        }
    }

    /// Adds a field, or replaces the type of a field of that name; a
    /// required field is added to the required names.
    pub fn add_field(&mut self, name: &str, field_type: FieldType, required: bool)
        requires
            old(self).wf(),
        ensures
            final(self).wf(),
            final(self).field_types() == old(self).field_types().insert(name@, field_type@),
            final(self).required_names() == if required {
                old(self).required_names().insert(name@)
            } else {
                old(self).required_names()
            },
    {
        let ghost old_list = self.field_list();
        let ghost tv = field_type@;
        let key = String::from_str(name);
        proof {
            lemma_field_types_view(self.fields, self.fields.len() as int);
            lemma_pairs_map(old_list, old_list.len() as int);
        }
        let pos = position_of_field(&self.fields, &key);
        let found = pos.is_some();
        let i: usize = match pos {
            Some(p) => p,
            None => 0,
        };
        proof {
            if !found {
                assert forall|j: int| 0 <= j < old_list.len() implies #[trigger] old_list[j].0 != name@ by {
                    assert(self.fields[j].0@ != name@);
                }
            } else {
                assert(old_list[i as int].0 == name@);
            }
        }
        let ghost new_list: Seq<(Seq<char>, FieldTypeModel)>;
        if found {
            let ghost old_fields = self.fields;
            self.fields.set(i, (key, field_type));
            proof {
                new_list = old_list.update(i as int, (name@, tv));
                lemma_field_types_view(self.fields, self.fields.len() as int);
                assert(self.field_list() =~= new_list);
            }
        } else {
            self.fields.push((key, field_type));
            proof {
                new_list = old_list.push((name@, tv));
                lemma_field_types_view(self.fields, self.fields.len() as int);
                assert(self.field_list() =~= new_list);
            }
        }
        proof {
            assert(distinct_keys(new_list)) by {
                assert forall|a: int, b: int| 0 <= a < b < new_list.len() implies #[trigger] new_list[a].0 != #[trigger] new_list[b].0 by {
                    if !found && b == old_list.len() {
                        assert(old_list[a].0 != name@);
                    } else if found && (a == i || b == i) {
                        if a == i {
                            assert(old_list[b].0 != old_list[a].0);
                        } else {
                            assert(old_list[a].0 != old_list[b].0);
                        }
                    }
                }
            }
            let m = pairs_map(old_list, old_list.len() as int).insert(name@, tv);
            assert forall|k: Seq<char>| m.contains_key(k) <==> exists|j: int| 0 <= j < new_list.len() && new_list[j].0 == k by {
                if m.contains_key(k) && k != name@ {
                    let j = choose|j: int| 0 <= j < old_list.len() && old_list[j].0 == k;
                    assert(new_list[j].0 == k);
                }
                if k == name@ {
                    if found {
                        assert(new_list[i as int].0 == k);
                    } else {
                        assert(new_list[old_list.len() as int].0 == k);
                    }
                }
            }
            assert forall|j: int| 0 <= j < new_list.len() implies m[new_list[j].0] == new_list[j].1 by {
                if new_list[j].0 != name@ {
                    assert(new_list[j] == old_list[j]);
                }
            }
            lemma_pairs_map(new_list, new_list.len() as int);
            lemma_pairs_map_ext(new_list, new_list, m);
        }
        if required {
            let key2 = String::from_str(name);
            let pos2 = position_of_name(&self.required, &key2);
            let present = pos2.is_some();
            let j: usize = match pos2 {
                Some(p) => p,
                None => 0,
            };
            let ghost old_req = strings_view(self.required@);
            if present {
                proof {
                    assert(old_req[j as int] == name@);
                    assert(old_req.to_set().insert(name@) =~= old_req.to_set());
                }
            } else {
                self.required.push(key2);
                proof {
                    let new_req = strings_view(self.required@);
                    assert(new_req =~= old_req.push(name@));
                    assert forall|a: int| 0 <= a < old_req.len() implies #[trigger] old_req[a] != name@ by {
                        assert(self.required@[a]@ != name@);
                    }
                    assert forall|a: Seq<char>| new_req.to_set().contains(a) <==> old_req.to_set().insert(name@).contains(a) by {
                        if new_req.contains(a) {
                            let k = choose|k: int| 0 <= k < new_req.len() && new_req[k] == a;
                            if k < old_req.len() {
                                assert(old_req[k] == a);
                            }
                        }
                        if old_req.contains(a) {
                            let k = choose|k: int| 0 <= k < old_req.len() && old_req[k] == a;
                            assert(new_req[k] == a);
                        }
                        if a == name@ {
                            assert(new_req[old_req.len() as int] == a);
                        }
                    }
                    assert(new_req.to_set() =~= old_req.to_set().insert(name@));
                    assert(new_req.no_duplicates()) by {
                        assert forall|a: int, b: int| 0 <= a < new_req.len() && 0 <= b < new_req.len() && a != b implies new_req[a] != new_req[b] by {
                            if a < old_req.len() && b < old_req.len() {
                            } else if a == old_req.len() {
                                assert(old_req[b] != name@);
                            } else {
                                assert(old_req[a] != name@);
                            }
                        }
                    }
                }
            }
        }
    }
}

impl Default for MetadataSchema {
    /// An empty schema.
    fn default() -> (s: Self)
        ensures
            s.wf(),
            s.field_types() == Map::<Seq<char>, FieldTypeModel>::empty(),
            s.required_names() == Set::<Seq<char>>::empty(),
    {
        Self::new()
    }
}


/// A field whose value the object holds passes the check of its type.
pub open spec fn present_field_fits(fields: Seq<(Seq<char>, FieldTypeModel)>, ms: Seq<(Seq<char>, JsonModel)>, i: int) -> bool {
    find_key(ms, fields[i].0) is Some ==> value_ok(fields[i].1, ms[find_key(ms, fields[i].0)->0].1)
}

proof fn lemma_check_fields_ok(fields: Seq<(Seq<char>, FieldTypeModel)>, ms: Seq<(Seq<char>, JsonModel)>, n: int)
    requires
        0 <= n <= fields.len(),
    ensures
        check_fields(fields, ms, n) is Ok <==> forall|i: int| 0 <= i < n ==> #[trigger] present_field_fits(fields, ms, i),
        check_fields(fields, ms, n) is Err ==> exists|i: int| 0 <= i < n && !#[trigger] present_field_fits(fields, ms, i)
            && (forall|j: int| 0 <= j < i ==> #[trigger] present_field_fits(fields, ms, j))
            && check_fields(fields, ms, n) == spec_validate_value(fields[i].1, fields[i].0, ms[find_key(ms, fields[i].0)->0].1),
    decreases n,
{
    if n > 0 {
        lemma_check_fields_ok(fields, ms, n - 1);
        match find_key(ms, fields[n - 1].0) {
            Some(j) => {
                law_validate_ok_iff_fits(fields[n - 1].1, fields[n - 1].0, ms[j].1);
            },
            None => {},
        }
        if forall|i: int| 0 <= i < n ==> #[trigger] present_field_fits(fields, ms, i) {
            assert(present_field_fits(fields, ms, n - 1));
        }
        if check_fields(fields, ms, n - 1) is Ok && check_fields(fields, ms, n) is Err {
            assert(!present_field_fits(fields, ms, n - 1));
        }
    }
}

/// Metadata passes a schema exactly when it is an object that holds every
/// required name and in which the value of every schema field that it holds
/// fits the field's type. Metadata that is not an object fails as the field
/// `metadata`; an object lacking a required name fails with a missing
/// required name; otherwise the error is that of the first schema field
/// whose value does not fit.
pub proof fn law_schema_validate(fields: Seq<(Seq<char>, FieldTypeModel)>, required: Seq<Seq<char>>, metadata: JsonModel)
    ensures
        spec_validate_schema(fields, required, metadata) is Ok <==> {
            &&& metadata is Object
            &&& forall|j: int| 0 <= j < required.len() ==> #[trigger] find_key(metadata->Object_0, required[j]) is Some
            &&& forall|i: int| 0 <= i < fields.len() ==> #[trigger] present_field_fits(fields, metadata->Object_0, i)
        },
        !(metadata is Object) ==> spec_validate_schema(fields, required, metadata) == Err::<(), SchemaErrorModel>(
            SchemaErrorModel::InvalidType { field: "metadata"@, expected: "Object"@, found: value_type_name(metadata) }),
        metadata is Object && (exists|j: int| 0 <= j < required.len() && #[trigger] find_key(metadata->Object_0, required[j]) is None)
            ==> exists|j: int| 0 <= j < required.len() && find_key(metadata->Object_0, required[j]) is None
                && #[trigger] spec_validate_schema(fields, required, metadata) == Err::<(), SchemaErrorModel>(
                    SchemaErrorModel::MissingField(required[j])),
        metadata is Object && (forall|j: int| 0 <= j < required.len() ==> #[trigger] find_key(metadata->Object_0, required[j]) is Some)
            && spec_validate_schema(fields, required, metadata) is Err ==> exists|i: int| 0 <= i < fields.len()
                && !#[trigger] present_field_fits(fields, metadata->Object_0, i)
                && (forall|k: int| 0 <= k < i ==> #[trigger] present_field_fits(fields, metadata->Object_0, k))
                && spec_validate_schema(fields, required, metadata) == spec_validate_value(fields[i].1, fields[i].0,
                    metadata->Object_0[find_key(metadata->Object_0, fields[i].0)->0].1),
{
    if metadata is Object {
        let ms = metadata->Object_0;
        lemma_first_missing(required, ms);
        lemma_check_fields_ok(fields, ms, fields.len() as int);
    }
}

/// The check of a value against a string, number or boolean type passes
/// exactly for null and values of that kind, and otherwise fails with an
/// `InvalidType` naming the field, the type and the value's kind.
pub proof fn law_scalar_types(name: Seq<char>, v: JsonModel)
    ensures
        spec_validate_value(FieldTypeModel::String, name, v) == if v is Null || v is String {
            Ok::<(), SchemaErrorModel>(())
        } else {
            Err(SchemaErrorModel::InvalidType { field: name, expected: "String"@, found: value_type_name(v) })
        },
        spec_validate_value(FieldTypeModel::Number, name, v) == if v is Null || v is Number {
            Ok::<(), SchemaErrorModel>(())
        } else {
            Err(SchemaErrorModel::InvalidType { field: name, expected: "Number"@, found: value_type_name(v) })
        },
        spec_validate_value(FieldTypeModel::Boolean, name, v) == if v is Null || v is Bool {
            Ok::<(), SchemaErrorModel>(())
        } else {
            Err(SchemaErrorModel::InvalidType { field: name, expected: "Boolean"@, found: value_type_name(v) })
        },
{
}


proof fn lemma_elements_ok_all(t: FieldTypeModel, items: Seq<JsonModel>, n: int)
    requires
        t is Array,
        0 <= n <= items.len(),
    ensures
        elements_ok(t, items, n) <==> forall|i: int| 0 <= i < n ==> #[trigger] value_ok(*t->Array_0, items[i]),
    decreases n,
{
    if n > 0 {
        lemma_elements_ok_all(t, items, n - 1);
        if forall|i: int| 0 <= i < n ==> #[trigger] value_ok(*t->Array_0, items[i]) {
            assert(value_ok(*t->Array_0, items[n - 1]));
        }
    }
}

proof fn lemma_members_ok_all(t: FieldTypeModel, ms: Seq<(Seq<char>, JsonModel)>, n: int)
    requires
        t is Object,
        0 <= n <= t->Object_0.len(),
    ensures
        members_ok(t, ms, n) <==> forall|i: int| 0 <= i < n ==> #[trigger] present_field_fits(t->Object_0, ms, i),
    decreases n,
{
    if n > 0 {
        lemma_members_ok_all(t, ms, n - 1);
        if forall|i: int| 0 <= i < n ==> #[trigger] present_field_fits(t->Object_0, ms, i) {
            assert(present_field_fits(t->Object_0, ms, n - 1));
        }
    }
}

/// An array fits an array type exactly when every element fits the element
/// type; an object fits an object type exactly when every listed field it
/// holds fits that field's type; a value of another kind fits neither
/// (null fits every type).
pub proof fn law_nested_types(inner: FieldTypeModel, items: Seq<JsonModel>, fs: Seq<(Seq<char>, FieldTypeModel)>,
    ms: Seq<(Seq<char>, JsonModel)>, v: JsonModel)
    ensures
        value_ok(FieldTypeModel::Array(Box::new(inner)), JsonModel::Array(items))
            <==> forall|i: int| 0 <= i < items.len() ==> #[trigger] value_ok(inner, items[i]),
        value_ok(FieldTypeModel::Object(fs), JsonModel::Object(ms))
            <==> forall|i: int| 0 <= i < fs.len() ==> #[trigger] present_field_fits(fs, ms, i),
        !(v is Null) && !(v is Array) ==> !value_ok(FieldTypeModel::Array(Box::new(inner)), v),
        !(v is Null) && !(v is Object) ==> !value_ok(FieldTypeModel::Object(fs), v),
        value_ok(inner, JsonModel::Null),
{
    lemma_elements_ok_all(FieldTypeModel::Array(Box::new(inner)), items, items.len() as int);
    lemma_members_ok_all(FieldTypeModel::Object(fs), ms, fs.len() as int);
}

} // verus!

//! Merging the package-level keys of a mod into a JSON file.

use vstd::prelude::*;
use crate::order::{is_order, lemma_order_unique, order_form};
use crate::text::{decimal_text, string_from_chars, to_chars};
use crate::util::modmeta::record::{Export, Import, ServiceView};
use crate::util::modmeta::section::MetaFile;
use super::{export_order, import_order};

verus! {

/// Any JSON value.
#[verifier::external_type_specification]
#[verifier::external_body]
pub struct ExJsonValue(serde_json::Value);

/// What an object holds: the name of each member, and the text that `serde_json` writes for its
/// value. Nothing for a value that is no object.
pub uninterp spec fn object_members(value: serde_json::Value) -> Option<Map<Seq<char>, Seq<char>>>;

/// The text that `serde_json` writes for a value, without blanks.
pub uninterp spec fn value_text(value: serde_json::Value) -> Seq<char>;

/// How many arrays and objects stand in one another.
pub uninterp spec fn value_depth(value: serde_json::Value) -> nat;

/// What `serde_json` reads from a text: nothing where it is no JSON, and else the members of the
/// value, if it is an object.
pub uninterp spec fn parsed_json(text: Seq<char>) -> Option<Option<Map<Seq<char>, Seq<char>>>>;

/// The text that `serde_json` writes for an object with these members, over lines.
pub uninterp spec fn pretty_object(members: Map<Seq<char>, Seq<char>>) -> Option<Seq<char>>;

/// The text that `serde_json` writes for an object with these members, without blanks.
pub uninterp spec fn object_text(members: Map<Seq<char>, Seq<char>>) -> Seq<char>;

/// The text that `serde_json` writes for a string: in quotes, with what JSON asks to escape.
pub uninterp spec fn string_text(text: Seq<char>) -> Seq<char>;

/// How deep the values are that are handled here. `serde_json` reads nothing deeper.
pub open spec fn deepest() -> nat {
    128
}

/// The text of a truth value.
pub open spec fn bool_text(b: bool) -> Seq<char> {
    if b {
        "true"@
    } else {
        "false"@
    }
}

/// The first `n` texts, with a comma between two of them.
pub open spec fn joined_texts(texts: Seq<Seq<char>>, n: int) -> Seq<char>
    decreases n,
{
    if n <= 0 {
        Seq::empty()
    } else if n == 1 {
        texts[0]
    } else {
        joined_texts(texts, n - 1) + seq![','] + texts[n - 1]
    }
}

/// The text of an array whose values have these texts.
pub open spec fn array_text(texts: Seq<Seq<char>>) -> Seq<char> {
    seq!['['] + joined_texts(texts, texts.len() as int) + seq![']']
}

/// The texts of values.
pub open spec fn value_texts(values: Seq<serde_json::Value>) -> Seq<Seq<char>> {
    Seq::new(values.len(), |i: int| value_text(values[i]))
}

/// `serde_json::from_str`: the value that a text holds, nothing where it is no JSON. It refuses a
/// text that is nested too deeply.
#[verifier::external_body]
fn parse_json(text: &str) -> (r: Option<serde_json::Value>)
    ensures
        match r {
            Some(value) => parsed_json(text@) == Some(object_members(value)) && value_depth(value)
                <= deepest(),
            None => parsed_json(text@) is None,
        },
{
    serde_json::from_str(text).ok()
}

/// `serde_json::Value::is_object`.
#[verifier::external_body]
fn is_object(value: &serde_json::Value) -> (r: bool)
    ensures
        r == (object_members(*value) is Some),
{
    value.is_object()
}

/// `serde_json::Map::insert`, on the members of an object: the member has the value, and the others
/// are as they were. The members stand in the order of their names, so they alone decide the text.
#[verifier::external_body]
fn insert_member(object: &mut serde_json::Value, name: &str, member: serde_json::Value)
    requires
        object_members(*old(object)) is Some,
    ensures
        ({
            let members = object_members(*old(object))->Some_0.insert(name@, value_text(member));
            &&& object_members(*final(object)) == Some(members)
            &&& value_text(*final(object)) == object_text(members)
            &&& value_depth(*final(object)) <= value_depth(*old(object)) || value_depth(
                *final(object),
            ) <= value_depth(member) + 1
        }),
{
    if let Some(members) = object.as_object_mut() {
        members.insert(name.to_string(), member);
    }
}

/// `serde_json::to_string_pretty`: the text of an object over lines, under the name of the result.
/// It calls itself once for each value that stands in another, so a value that is nested more deeply
/// than one that was read is left out.
#[verifier::external_body]
fn print_json(object: &serde_json::Value) -> (r: Option<String>)
    requires
        object_members(*object) is Some,
        value_depth(*object) <= deepest() + 1,
    ensures
        match r {
            Some(text) => pretty_object(object_members(*object)->Some_0) == Some(text@),
            None => pretty_object(object_members(*object)->Some_0) is None,
        },
{
    serde_json::to_string_pretty(object).ok()
}

/// `serde_json::Value::from`, on a number: its digits.
#[verifier::external_body]
fn number_value(n: u32) -> (r: serde_json::Value)
    ensures
        value_text(r) == decimal_text(n as int),
        value_depth(r) == 0,
{
    serde_json::Value::from(n)
}

/// `serde_json::Value::from`, on a truth value: `true` or `false`.
#[verifier::external_body]
fn bool_value(b: bool) -> (r: serde_json::Value)
    ensures
        value_text(r) == bool_text(b),
        value_depth(r) == 0,
{
    serde_json::Value::from(b)
}

/// `serde_json::Value::from`, on a text: a string, under the name of its text.
#[verifier::external_body]
fn string_value(text: &str) -> (r: serde_json::Value)
    ensures
        value_text(r) == string_text(text@),
        value_depth(r) == 0,
{
    serde_json::Value::from(text)
}

/// `serde_json::Value::from`, on values: an array of them, in their order.
#[verifier::external_body]
fn array_value(items: Vec<serde_json::Value>) -> (r: serde_json::Value)
    ensures
        value_text(r) == array_text(value_texts(items@)),
        (forall|i: int| 0 <= i < items@.len() ==> value_depth(#[trigger] items@[i]) <= 1)
            ==> value_depth(r) <= 2,
{
    serde_json::Value::from(items)
}

/// `serde_json::Map::new`: an object without members.
#[verifier::external_body]
fn empty_object() -> (r: serde_json::Value)
    ensures
        object_members(r) == Some(Map::<Seq<char>, Seq<char>>::empty()),
        value_text(r) == object_text(Map::<Seq<char>, Seq<char>>::empty()),
        value_depth(r) <= 1,
{
    serde_json::Value::Object(serde_json::Map::new())
}

/// Why a JSON file is not updated.
#[derive(Clone, Copy, Debug, PartialEq, Eq, Structural)]
pub enum JsonFault {
    /// The file holds no JSON.
    NotJson,
    /// The root of the file is no object.
    NotObject,
    /// The new text cannot be written.
    NotWritten,
}

/// The members of an object once the package-level keys are set.
pub open spec fn merged(
    members: Map<Seq<char>, Seq<char>>,
    abi: Seq<char>,
    imports: Seq<char>,
    exports: Seq<char>,
) -> Map<Seq<char>, Seq<char>> {
    members.insert("abi"@, abi).insert("imports"@, imports).insert("exports"@, exports)
}

/// The text of a JSON file once the package-level keys are set, but for the line feed at its end.
pub open spec fn updated(
    parsed: Option<Option<Map<Seq<char>, Seq<char>>>>,
    abi: Seq<char>,
    imports: Seq<char>,
    exports: Seq<char>,
) -> Result<Seq<char>, JsonFault> {
    match parsed {
        None => Err(JsonFault::NotJson),
        Some(None) => Err(JsonFault::NotObject),
        Some(Some(members)) => match pretty_object(merged(members, abi, imports, exports)) {
            None => Err(JsonFault::NotWritten),
            Some(text) => Ok(text),
        },
    }
}

/// Set the package-level keys in the text of a JSON file.
pub fn update_text(
    text: &str,
    abi: serde_json::Value,
    imports: serde_json::Value,
    exports: serde_json::Value,
) -> (r: Result<String, JsonFault>)
    requires
        value_depth(abi) <= deepest(),
        value_depth(imports) <= deepest(),
        value_depth(exports) <= deepest(),
    ensures
        ({
            let expected = updated(
                parsed_json(text@),
                value_text(abi),
                value_text(imports),
                value_text(exports),
            );
            match r {
                Ok(out) => expected == Ok::<Seq<char>, JsonFault>(out@),
                Err(e) => expected == Err::<Seq<char>, JsonFault>(e),
            }
        }),
{
    let mut value: serde_json::Value = match parse_json(text) {
        Some(value) => value,
        None => return Err(JsonFault::NotJson),
    };
    if !is_object(&value) {
        return Err(JsonFault::NotObject);
    }
    insert_member(&mut value, "abi", abi);
    insert_member(&mut value, "imports", imports);
    insert_member(&mut value, "exports", exports);
    match print_json(&value) {
        Some(out) => Ok(out),
        None => Err(JsonFault::NotWritten),
    }
}

/// The members of a service, whose minor version and flag have these names.
pub open spec fn service_members(
    service: ServiceView,
    minor: Seq<char>,
    flag: Seq<char>,
) -> Map<Seq<char>, Seq<char>> {
    Map::empty().insert("service_id"@, string_text(service.service_id)).insert(
        "major"@,
        decimal_text(service.major as int),
    ).insert(minor, decimal_text(service.minor as int)).insert(flag, bool_text(service.flag))
}

/// The text of an import.
pub open spec fn import_text(import: ServiceView) -> Seq<char> {
    object_text(service_members(import, "min_minor"@, "optional"@))
}

/// The text of an export.
pub open spec fn export_text(export: ServiceView) -> Seq<char> {
    object_text(service_members(export, "minor"@, "deferred"@))
}

/// The text of the imports of a library, in their order.
pub open spec fn imports_text(imports: Seq<Import>) -> Seq<char> {
    let order = order_form(imports);
    array_text(Seq::new(order.len(), |k: int| import_text(imports[order[k] as int]@)))
}

/// The text of the exports of a library, in their order.
pub open spec fn exports_text(exports: Seq<Export>) -> Seq<char> {
    let order = order_form(exports);
    array_text(Seq::new(order.len(), |k: int| export_text(exports[order[k] as int]@)))
}

/// The object of a service.
fn service_value(
    service_id: &str,
    major: u16,
    minor_name: &str,
    minor: u16,
    flag_name: &str,
    flag: bool,
) -> (r: serde_json::Value)
    ensures
        value_text(r) == object_text(
            service_members(
                ServiceView { service_id: service_id@, major, minor, flag },
                minor_name@,
                flag_name@,
            ),
        ),
        value_depth(r) <= 1,
{
    let mut object = empty_object();
    insert_member(&mut object, "service_id", string_value(service_id));
    insert_member(&mut object, "major", number_value(major as u32));
    insert_member(&mut object, minor_name, number_value(minor as u32));
    insert_member(&mut object, flag_name, bool_value(flag));
    object
}

/// The array of the imports of a library.
fn imports_value(imports: &[Import]) -> (r: serde_json::Value)
    ensures
        value_text(r) == imports_text(imports@),
        value_depth(r) <= 2,
{
    let order = import_order(imports);
    proof {
        lemma_order_unique(imports@, order@);
    }
    let mut items: Vec<serde_json::Value> = Vec::new();
    let mut k: usize = 0;
    while k < order.len()
        invariant
            k <= order@.len(),
            is_order(imports@, order@, 0, imports@.len() as int),
            items@.len() == k,
            forall|i: int|
                0 <= i < k ==> value_text(#[trigger] items@[i]) == import_text(
                    imports@[order@[i] as int]@,
                ) && value_depth(items@[i]) <= 1,
        decreases order@.len() - k,
    {
        let import = &imports[order[k]];
        items.push(
            service_value(
                &import.service_id,
                import.major,
                "min_minor",
                import.min_minor,
                "optional",
                import.optional,
            ),
        );
        k = k + 1;
    }
    assert(value_texts(items@) =~= Seq::new(
        order@.len(),
        |i: int| import_text(imports@[order@[i] as int]@),
    ));
    array_value(items)
}

/// The array of the exports of a library.
fn exports_value(exports: &[Export]) -> (r: serde_json::Value)
    ensures
        value_text(r) == exports_text(exports@),
        value_depth(r) <= 2,
{
    let order = export_order(exports);
    proof {
        lemma_order_unique(exports@, order@);
    }
    let mut items: Vec<serde_json::Value> = Vec::new();
    let mut k: usize = 0;
    while k < order.len()
        invariant
            k <= order@.len(),
            is_order(exports@, order@, 0, exports@.len() as int),
            items@.len() == k,
            forall|i: int|
                0 <= i < k ==> value_text(#[trigger] items@[i]) == export_text(
                    exports@[order@[i] as int]@,
                ) && value_depth(items@[i]) <= 1,
        decreases order@.len() - k,
    {
        let export = &exports[order[k]];
        items.push(
            service_value(
                &export.service_id,
                export.major,
                "minor",
                export.minor,
                "deferred",
                export.deferred,
            ),
        );
        k = k + 1;
    }
    assert(value_texts(items@) =~= Seq::new(
        order@.len(),
        |i: int| export_text(exports@[order@[i] as int]@),
    ));
    array_value(items)
}

/// The text of a JSON file once the package-level keys of a library are merged into it.
pub open spec fn updated_json(text: Seq<char>, meta: MetaFile) -> Result<Seq<char>, JsonFault> {
    match updated(
        parsed_json(text),
        decimal_text(meta.abi_version as int),
        imports_text(meta.imports@),
        exports_text(meta.exports@),
    ) {
        Err(e) => Err(e),
        Ok(out) => Ok(out.push('\n')),
    }
}

/// Merge the package-level keys of a library into the text of a JSON file: its ABI version, and its
/// imports and exports in their order.
pub fn update_json(text: &str, meta: &MetaFile) -> (r: Result<String, JsonFault>)
    ensures
        match r {
            Ok(out) => updated_json(text@, *meta) == Ok::<Seq<char>, JsonFault>(out@),
            Err(e) => updated_json(text@, *meta) == Err::<Seq<char>, JsonFault>(e),
        },
{
    let out = update_text(
        text,
        number_value(meta.abi_version),
        imports_value(&meta.imports),
        exports_value(&meta.exports),
    )?;
    let mut chars = to_chars(&out);
    chars.push('\n');
    Ok(string_from_chars(&chars))
}

/// Merging sets the package-level keys of a library, keeps every other key of the file with its
/// value, and adds no other.
pub proof fn law_merging_preserves_the_other_keys(
    members: Map<Seq<char>, Seq<char>>,
    abi: Seq<char>,
    imports: Seq<char>,
    exports: Seq<char>,
    name: Seq<char>,
)
    ensures
        ({
            let after = merged(members, abi, imports, exports);
            &&& after.dom().contains("abi"@) && after["abi"@] == abi
            &&& after.dom().contains("imports"@) && after["imports"@] == imports
            &&& after.dom().contains("exports"@) && after["exports"@] == exports
            &&& name != "abi"@ && name != "imports"@ && name != "exports"@ ==> (
            after.dom().contains(name) <==> members.dom().contains(name)) && (
            members.dom().contains(name) ==> after[name] == members[name])
        }),
{
    reveal_strlit("abi");
    reveal_strlit("imports");
    reveal_strlit("exports");
    assert("imports"@[0] != "exports"@[0]);
}

} // verus!

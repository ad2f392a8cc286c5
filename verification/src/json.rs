//! The JSON objects that requests carry, built and written with `serde_json`.
use vstd::prelude::*;

verus! {

/// `serde_json::Value`: any JSON value.
#[verifier::external_type_specification]
#[verifier::external_body]
pub struct ExValue(serde_json::Value);

/// `serde_json::Map`: the members of a JSON object by name.
#[verifier::external_type_specification]
#[verifier::external_body]
#[verifier::reject_recursive_types(K)]
#[verifier::reject_recursive_types(V)]
pub struct ExObject<K, V>(serde_json::Map<K, V>);

/// What a member of a request's object holds.
pub enum Member {
    /// A string.
    Text(Seq<char>),
    /// An array of strings.
    Texts(Seq<Seq<char>>),
    /// A whole number.
    Count(nat),
}

/// The texts that a slice of string slices holds.
pub open spec fn texts_view(texts: Seq<&str>) -> Seq<Seq<char>> {
    texts.map_values(|text: &str| text@)
}

/// The members of an empty object.
pub open spec fn no_members() -> Map<Seq<char>, Member> {
    Map::empty()
}

/// The members of `object` by name.
pub uninterp spec fn members(
    object: serde_json::Map<String, serde_json::Value>,
) -> Map<Seq<char>, Member>;

/// The compact JSON text that `serde_json` writes for an object with these members.
pub uninterp spec fn object_text(members: Map<Seq<char>, Member>) -> Seq<char>;

/// `serde_json::Map::new` makes an object without members.
#[verifier::external_body]
pub(crate) fn new_object() -> (object: serde_json::Map<String, serde_json::Value>)
    ensures
        members(object) == no_members(),
{
    serde_json::Map::new()
}

/// `serde_json::Map::insert` with a `Value` made of a string slice: the member `name`
/// becomes that string, whether or not the object had one of that name.
#[verifier::external_body]
pub(crate) fn insert_text(
    object: &mut serde_json::Map<String, serde_json::Value>,
    name: &str,
    text: &str,
)
    ensures
        members(*final(object)) == members(*old(object)).insert(name@, Member::Text(text@)),
{
    object.insert(name.to_owned(), serde_json::Value::from(text));
}

/// `serde_json::Map::insert` with a `Value` made of a slice of string slices: the member
/// `name` becomes the array of those strings in their order.
#[verifier::external_body]
pub(crate) fn insert_texts(
    object: &mut serde_json::Map<String, serde_json::Value>,
    name: &str,
    texts: &[&str],
)
    ensures
        members(*final(object)) == members(*old(object)).insert(
            name@,
            Member::Texts(texts_view(texts@)),
        ),
{
    object.insert(name.to_owned(), serde_json::Value::from(texts));
}

/// `serde_json::Map::insert` with a `Value` made of a `usize`: the member `name` becomes
/// that number.
#[verifier::external_body]
pub(crate) fn insert_count(
    object: &mut serde_json::Map<String, serde_json::Value>,
    name: &str,
    count: usize,
)
    ensures
        members(*final(object)) == members(*old(object)).insert(
            name@,
            Member::Count(count as nat),
        ),
{
    object.insert(name.to_owned(), serde_json::Value::from(count));
}

/// The `Display` of `serde_json::Value` writes an object as compact JSON, its members in
/// the order of their names, so that the text depends on the members alone.
#[verifier::external_body]
pub(crate) fn write_object(object: serde_json::Map<String, serde_json::Value>) -> (text: String)
    ensures
        text@ == object_text(members(object)),
{
    serde_json::Value::Object(object).to_string()
}

} // verus!

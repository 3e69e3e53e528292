//! Field access by name: the mechanism that lets a query name a record field
//! as a runtime string while `ContentItem` stays statically defined.  An
//! explicit name-to-accessor table replaces runtime reflection.

use vstd::prelude::*;
use crate::content::ContentItem;
use crate::strutil::{spec_starts_with, spec_strip_prefix, str_eq, str_starts_with,
    strip_prefix_str};

verus! {

/// Why a field lookup failed.
#[derive(Debug, Clone, Copy, PartialEq, Eq, Structural)]
pub enum FieldError {
    /// The name matches no field of the record.
    NoSuchField,
    /// The field exists but has no string-like value.
    TypeMismatch,
}

/// A field's value, as a string or as a number.
#[derive(Debug, Clone, PartialEq)]
pub enum FieldValue {
    Text(String),
    Count(usize),
}

/// What looking up `field` on `item` must return.
pub open spec fn field_lookup_matches(
    item: ContentItem,
    field: Seq<char>,
    r: Result<FieldValue, FieldError>,
) -> bool {
    if field == "path"@ {
        r matches Ok(FieldValue::Text(t)) && t@ == item.path@
    } else if field == "slug"@ {
        r matches Ok(FieldValue::Text(t)) && t@ == item.slug@
    } else if field == "entry"@ {
        r matches Ok(FieldValue::Text(t)) && t@ == item.entry@
    } else if field == "time_to_read"@ {
        r matches Ok(FieldValue::Count(c)) && c == item.time_to_read
    } else if field == "meta"@ {
        r == Result::<FieldValue, FieldError>::Err(FieldError::TypeMismatch)
    } else {
        r == Result::<FieldValue, FieldError>::Err(FieldError::NoSuchField)
    }
}

/// Returns the value of the field named `field`, or says why it cannot.
pub fn get_field_by_name(item: &ContentItem, field: &str) -> (r: Result<FieldValue, FieldError>)
    ensures
        field_lookup_matches(*item, field@, r),
{
    if str_eq(field, "path") {
        Ok(FieldValue::Text(item.path.clone()))
    } else if str_eq(field, "slug") {
        Ok(FieldValue::Text(item.slug.clone()))
    } else if str_eq(field, "entry") {
        Ok(FieldValue::Text(item.entry.clone()))
    } else if str_eq(field, "time_to_read") {
        Ok(FieldValue::Count(item.time_to_read))
    } else if str_eq(field, "meta") {
        Err(FieldError::TypeMismatch)
    } else {
        Err(FieldError::NoSuchField)
    }
}

/// The string key a record sorts under for a field path: the metadata value
/// for `meta.`-prefixed paths (absent keys read as the empty string), the
/// string field for `path` / `slug` / `entry`, and the empty string
/// otherwise.  Paths that name no string field are rejected up front by
/// `field_path_ok`; here they read as empty so that sorting is total.
pub open spec fn sort_key_spec(item: ContentItem, by: Seq<char>) -> Seq<char> {
    if spec_starts_with(by, "meta."@) {
        let key = spec_strip_prefix(by, "meta."@);
        if item.meta@.contains_key(key) {
            item.meta@[key]
        } else {
            Seq::empty()
        }
    } else if by == "path"@ {
        item.path@
    } else if by == "slug"@ {
        item.slug@
    } else if by == "entry"@ {
        item.entry@
    } else {
        Seq::empty()
    }
}

pub fn get_sort_key(item: &ContentItem, by: &str) -> (r: String)
    ensures
        r@ == sort_key_spec(*item, by@),
{
    if str_starts_with(by, "meta.") {
        let key = strip_prefix_str(by, "meta.");
        match item.meta.get(key.as_str()) {
            Some(v) => v.clone(),
            None => String::new(),
        }
    } else if str_eq(by, "path") {
        item.path.clone()
    } else if str_eq(by, "slug") {
        item.slug.clone()
    } else if str_eq(by, "entry") {
        item.entry.clone()
    } else {
        String::new()
    }
}

/// Whether a `sort_by` / `group_by` path resolves on a content record: a
/// metadata path or one of the string-valued fields.  Any other path is a
/// manifest authoring error.
pub open spec fn field_path_ok_spec(by: Seq<char>) -> bool {
    spec_starts_with(by, "meta."@) || by == "path"@ || by == "slug"@ || by == "entry"@
}

pub fn field_path_ok(by: &str) -> (r: bool)
    ensures
        r == field_path_ok_spec(by@),
{
    str_starts_with(by, "meta.") || str_eq(by, "path") || str_eq(by, "slug") || str_eq(by, "entry")
}

} // verus!

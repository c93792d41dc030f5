//! Configuration data of the surrounding application.
//!
//! Finding, reading and parsing the configuration file is I/O and lives
//! outside the library. This module holds the plain data that the
//! configuration carries, and the example and default values that the
//! configuration schema documents.

use vstd::prelude::*;

verus! {

/// How the application logs in to the remote store: with a user account,
/// or with an API client's credentials.
#[derive(Debug)]
pub enum LoginConfig {
    Password { mail: String, password: String },
    ClientCredentials { client_id: String, client_secret: String },
}

/// Default for boolean settings that are on unless switched off.
pub fn bool_true() -> (r: bool)
    ensures
        r,
{
    true
}

/// Example of a project identifier, for the configuration schema.
pub fn project_id() -> (r: &'static str)
    ensures
        r@ == "92047938-c050-4d9c-83f8-6b1d7fae6b01"@,
{
    "92047938-c050-4d9c-83f8-6b1d7fae6b01"
}

/// Example of a locale code, for the configuration schema.
pub fn locale_en() -> (r: &'static str)
    ensures
        r@ == "en"@,
{
    "en"
}

/// Example of a locale code with a region, for the configuration schema.
pub fn locale_de_de() -> (r: &'static str)
    ensures
        r@ == "de_DE"@,
{
    "de_DE"
}

/// Example of another locale code, for the configuration schema.
pub fn locale_ru() -> (r: &'static str)
    ensures
        r@ == "ru"@,
{
    "ru"
}

/// Example of a commit hash as the baseline revision, for the
/// configuration schema.
pub fn revision_commit() -> (r: &'static str)
    ensures
        r@ == "9011cdcd095d156c6a7e34182fdcba144ab1789a"@,
{
    "9011cdcd095d156c6a7e34182fdcba144ab1789a"
}

/// Example of a branch name as the baseline revision, for the
/// configuration schema.
pub fn revision_branch() -> (r: &'static str)
    ensures
        r@ == "main"@,
{
    "main"
}

/// Example of a tag as the baseline revision, for the configuration
/// schema.
pub fn revision_tag() -> (r: &'static str)
    ensures
        r@ == "v2.7.41"@,
{
    "v2.7.41"
}

/// Example of an encoding label, for the configuration schema.
pub fn encoding_utf_8() -> (r: &'static str)
    ensures
        r@ == "utf-8"@,
{
    "utf-8"
}

/// Example of another encoding label, for the configuration schema.
pub fn encoding_utf_16() -> (r: &'static str)
    ensures
        r@ == "utf-16"@,
{
    "utf-16"
}

} // verus!

//! File validation: whether a path exists on the file system, and whether
//! its extension is in an allow-list.
use std::path::Path;

use vstd::prelude::*;

use crate::error::types::DynamicCliError;
use crate::error::types::ValidationError;
use crate::utils::has_extension;
use crate::utils::spec_has_extension;

verus! {

/// Relies on `Path::exists`: whether the path names an existing file or
/// directory at the moment of the call. The answer depends on the file
/// system, so nothing is promised of it.
#[verifier::external_body]
fn path_exists(path: &str) -> bool {
    Path::new(path).exists()
}

/// The decision `validate_file_exists` makes once the file system has
/// answered: an existing path passes, a missing one is reported with the
/// path and the argument's name.
pub fn check_existence(exists: bool, path: &str, arg_name: &str) -> (r: Result<
    (),
    DynamicCliError,
>)
    ensures
        r is Ok <==> exists,
        r matches Err(e) ==> (e matches DynamicCliError::Validation(
            ValidationError::FileNotFound { path: p, arg_name: a },
        ) && p@ == path@ && a@ == arg_name@),
{
    if exists {
        Ok(())
    } else {
        Err(
            DynamicCliError::Validation(
                ValidationError::FileNotFound { path: path.to_owned(), arg_name: arg_name.to_owned() },
            ),
        )
    }
}

/// Validates that a path exists on the file system, file or directory
/// alike. Whatever the file system answers, the outcome is the decision
/// `check_existence` makes on that answer.
pub fn validate_file_exists(path: &str, arg_name: &str) -> (r: Result<(), DynamicCliError>)
    ensures
        r matches Err(e) ==> (e matches DynamicCliError::Validation(
            ValidationError::FileNotFound { path: p, arg_name: a },
        ) && p@ == path@ && a@ == arg_name@),
{
    let exists = path_exists(path);
    check_existence(exists, path, arg_name)
}

/// Validates that the path's extension, compared case-insensitively, is
/// one of the expected ones; a path without an extension fails.
pub fn validate_file_extension(path: &str, arg_name: &str, expected: &Vec<String>) -> (r: Result<
    (),
    DynamicCliError,
>)
    ensures
        r is Ok <==> spec_has_extension(path@, expected.deep_view()),
        r matches Err(e) ==> (e matches DynamicCliError::Validation(
            ValidationError::InvalidExtension { arg_name: a, path: p, expected: exp },
        ) && a@ == arg_name@ && p@ == path@ && exp.deep_view() == expected.deep_view()),
{
    if has_extension(path, expected) {
        Ok(())
    } else {
        let mut exp: Vec<String> = Vec::new();
        let mut i: usize = 0;
        while i < expected.len()
            invariant
                0 <= i <= expected@.len(),
                exp@.len() == i,
                forall|j: int| 0 <= j < i ==> exp@[j]@ == (#[trigger] expected@[j])@,
            decreases expected@.len() - i,
        {
            exp.push(expected[i].clone());
            i += 1;
        }
        proof {
            assert(exp.deep_view() =~~= expected.deep_view());
        }
        Err(
            DynamicCliError::Validation(
                ValidationError::InvalidExtension {
                    arg_name: arg_name.to_owned(),
                    path: path.to_owned(),
                    expected: exp,
                },
            ),
        )
    }
}

} // verus!

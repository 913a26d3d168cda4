//! Names: which branch names are allowed, and the names that are made up.

use vstd::prelude::*;
use vstd::string::*;
use vstd::utf8::{encode_utf8, is_ascii_chars};

use crate::errors::{BranchError, ErrorView};
use crate::text::{concat, has_char, same, Text};

verus! {

/// Why a branch name is not allowed, or `None` for one that is.
pub open spec fn name_fault(name: Text) -> Option<Text> {
    if name.len() == 0 {
        Some("branch name cannot be empty"@)
    } else if name == "."@ || name == ".."@ {
        Some("'"@ + name + "' is not a valid branch name"@)
    } else if name.contains('/') || name.contains('\0') {
        Some("branch name cannot contain '/' or null bytes"@)
    } else if name[0] == '@' {
        Some("branch name cannot start with '@' (reserved for virtual paths)"@)
    } else if encode_utf8(name).len() > 255 {
        Some("branch name cannot exceed 255 characters"@)
    } else {
        None
    }
}

pub fn validate_branch_name(name: &str) -> (r: Result<(), BranchError>)
    ensures
        r is Ok <==> name_fault(name@) is None,
        r matches Err(e) ==> Some(e@) == (match name_fault(name@) {
            Some(m) => Some(ErrorView::Invalid(m)),
            None => None,
        }),
{
    if name.is_empty() {
        return Err(BranchError::Invalid("branch name cannot be empty".to_owned()));
    }
    if same(name, ".") || same(name, "..") {
        let quoted = concat("'", name);
        return Err(
            BranchError::Invalid(concat(quoted.as_str(), "' is not a valid branch name")),
        );
    }
    if has_char(name, '/') || has_char(name, '\0') {
        return Err(
            BranchError::Invalid("branch name cannot contain '/' or null bytes".to_owned()),
        );
    }
    if name.get_char(0) == '@' {
        return Err(
            BranchError::Invalid(
                "branch name cannot start with '@' (reserved for virtual paths)".to_owned(),
            ),
        );
    }
    if name.as_bytes().len() > 255 {
        return Err(BranchError::Invalid("branch name cannot exceed 255 characters".to_owned()));
    }
    Ok(())
}

pub open spec fn hex_char(c: char) -> bool {
    '0' <= c <= '9' || 'a' <= c <= 'f'
}

/// The shape of a random identifier: groups of lower-case hexadecimal digits between hyphens,
/// with the digits that mark a random identifier in their places.
pub open spec fn random_id(t: Text) -> bool {
    &&& t.len() == 36
    &&& forall|i: int|
        0 <= i < 36 ==> if i == 8 || i == 13 || i == 18 || i == 23 {
            #[trigger] t[i] == '-'
        } else {
            hex_char(t[i])
        }
    &&& t[14] == '4'
    &&& t[19] == '8' || t[19] == '9' || t[19] == 'a' || t[19] == 'b'
}

/// `Uuid::new_v4`, written by its `Display`: a random identifier in the hyphenated lower-case
/// form. Which one is left to chance, so only its shape is claimed.
#[verifier::external_body]
fn new_id() -> (r: String)
    ensures
        random_id(r@),
{
    uuid::Uuid::new_v4().to_string()
}

/// The name of a branch that was made without one.
pub fn made_up_branch_name() -> (r: String)
    ensures
        exists|id: Text| #[trigger] random_id(id) && r@ == "branch-"@ + id,
        name_fault(r@) is None,
{
    let id = new_id();
    proof {
        law_made_up_names_are_allowed(id@);
    }
    concat("branch-", id.as_str())
}

/// The name of a half-written copy of a file.
pub fn staging_name() -> (r: String)
    ensures
        exists|id: Text| #[trigger] random_id(id) && r@ == "cow-"@ + id + ".tmp"@,
{
    let id = new_id();
    let head = concat("cow-", id.as_str());
    concat(head.as_str(), ".tmp")
}

/// The name under which branch metadata is written before it replaces the old file.
pub fn metadata_temp_name() -> (r: String)
    ensures
        exists|id: Text| #[trigger] random_id(id) && r@ == "meta.json.tmp."@ + id,
{
    let id = new_id();
    concat("meta.json.tmp.", id.as_str())
}

/// A made-up branch name is one that the rules for names allow.
pub proof fn law_made_up_names_are_allowed(id: Text)
    requires
        random_id(id),
    ensures
        name_fault("branch-"@ + id) is None,
{
    reveal_strlit("branch-");
    reveal_strlit(".");
    reveal_strlit("..");
    let name = "branch-"@ + id;
    assert forall|i: int| 0 <= i < name.len() implies {
        &&& #[trigger] name[i] != '/'
        &&& name[i] != '\0'
        &&& 0 <= name[i] as u32 <= 127
    } by {
        if i >= 7 {
            assert(name[i] == id[i - 7]);
        }
    }
    assert(name.len() == 43);
    assert(name[0] == 'b');
    assert(is_ascii_chars(name));
    vstd::utf8::is_ascii_chars_encode_utf8(name);
    assert(encode_utf8(name).len() == 43);
}

/// A branch name is allowed exactly if it is not empty, is neither of the two names that stand for
/// directories, holds no slash and no null, does not begin with an `@`, and takes at most 255
/// bytes.
pub proof fn law_allowed_names(name: Text)
    ensures
        name_fault(name) is None <==> {
            &&& name.len() > 0
            &&& name != seq!['.'] && name != seq!['.', '.']
            &&& forall|i: int| 0 <= i < name.len() ==> #[trigger] name[i] != '/' && name[i] != '\0'
            &&& name[0] != '@'
            &&& encode_utf8(name).len() <= 255
        },
{
    reveal_strlit(".");
    reveal_strlit("..");
    assert("."@ =~= seq!['.']);
    assert(".."@ =~= seq!['.', '.']);
    if !name.contains('/') && !name.contains('\0') {
        assert forall|i: int| 0 <= i < name.len() implies #[trigger] name[i] != '/' && name[i]
            != '\0' by {
            assert(name.contains(name[i]));
        }
    }
}

} // verus!

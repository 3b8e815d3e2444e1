//! Environment variable names and how values are shown masked.

use vstd::prelude::*;

use crate::envfile::{has_assignment, set_var, set_var_spec, unset_var, unset_var_spec};
use crate::text::{chars_of, lines, string_of};

verus! {

pub open spec fn is_ascii_digit(c: char) -> bool {
    '0' <= c && c <= '9'
}

pub open spec fn is_ascii_alphanumeric(c: char) -> bool {
    is_ascii_digit(c) || ('a' <= c && c <= 'z') || ('A' <= c && c <= 'Z')
}

/// A usable variable name: not empty, not starting with a digit, and made
/// of ASCII letters, digits and underscores.
pub open spec fn valid_name(key: Seq<char>) -> bool {
    &&& key.len() > 0
    &&& !is_ascii_digit(key[0])
    &&& forall|i: int| 0 <= i < key.len() ==> is_ascii_alphanumeric(#[trigger] key[i]) || key[i]
        == '_'
}

/// A variable name that cannot be used; the name.
#[derive(Debug)]
pub struct InvalidName(pub String);

pub fn validate_key(key: &str) -> (r: Result<(), InvalidName>)
    ensures
        r is Ok <==> valid_name(key@),
        r matches Err(InvalidName(k)) ==> k@ == key@,
{
    let k = chars_of(key);
    if k.len() == 0 || ('0' <= k[0] && k[0] <= '9') {
        return Err(InvalidName(key.to_owned()));
    }
    let mut i: usize = 0;
    while i < k.len()
        invariant
            i <= k@.len(),
            k@ == key@,
            forall|j: int| 0 <= j < i ==> is_ascii_alphanumeric(#[trigger] k@[j]) || k@[j] == '_',
        decreases k@.len() - i,
    {
        let c = k[i];
        let ok = ('0' <= c && c <= '9') || ('a' <= c && c <= 'z') || ('A' <= c && c <= 'Z') || c
            == '_';
        if !ok {
            assert(!(is_ascii_alphanumeric(k@[i as int]) || k@[i as int] == '_'));
            return Err(InvalidName(key.to_owned()));
        }
        i = i + 1;
    }
    Ok(())
}

/// The bullet that stands for a hidden character.
pub open spec fn bullet() -> char {
    '\u{2022}'
}

pub open spec fn bullets(n: nat) -> Seq<char> {
    Seq::new(n, |i: int| bullet())
}

/// A value as `show` prints it without `--reveal`: four bullets for short
/// values; otherwise the first two and last two characters around one
/// bullet per hidden character, at most twelve, so long values don't leak
/// their exact length.
pub open spec fn mask_spec(value: Seq<char>) -> Seq<char> {
    if value.len() <= 4 {
        bullets(4)
    } else {
        let hidden = (value.len() - 4) as nat;
        value.take(2) + bullets(if hidden < 12 {
            hidden
        } else {
            12
        }) + value.skip(value.len() - 2)
    }
}

pub fn mask(value: &str) -> (r: String)
    ensures
        r@ == mask_spec(value@),
{
    let v = chars_of(value);
    let count = v.len();
    let mut out: Vec<char> = Vec::new();
    if count <= 4 {
        let mut i: usize = 0;
        while i < 4
            invariant
                i <= 4,
                out@ == bullets(i as nat),
            decreases 4 - i,
        {
            out.push('\u{2022}');
            i = i + 1;
            assert(out@ =~= bullets(i as nat));
        }
        return string_of(&out);
    }
    out.push(v[0]);
    out.push(v[1]);
    let hidden = if count - 4 < 12 {
        count - 4
    } else {
        12
    };
    let mut i: usize = 0;
    assert(out@ =~= v@.take(2) + bullets(0));
    while i < hidden
        invariant
            i <= hidden,
            out@ == v@.take(2) + bullets(i as nat),
        decreases hidden - i,
    {
        out.push('\u{2022}');
        i = i + 1;
        assert(out@ =~= v@.take(2) + bullets(i as nat));
    }
    out.push(v[count - 2]);
    out.push(v[count - 1]);
    assert(out@ =~= mask_spec(value@));
    string_of(&out)
}

/// Masking does not show how long a long value is: values of sixteen or
/// more characters that share their first two and last two characters are
/// masked alike, and no mask is longer than sixteen characters.
pub proof fn law_mask_hides_length(a: Seq<char>, b: Seq<char>)
    requires
        a.len() >= 16,
        b.len() >= 16,
        a.take(2) == b.take(2),
        a.skip(a.len() - 2) == b.skip(b.len() - 2),
    ensures
        mask_spec(a) == mask_spec(b),
        mask_spec(a).len() <= 16,
{
}

/// Why `unset` refused.
#[derive(Debug)]
pub enum UnsetError {
    /// The name cannot be a variable's.
    Invalid(InvalidName),
    /// No line of the file assigns the variable; its name.
    NotSet(String),
}

/// `set`: the file's text with `key` set to `value`, for a valid name.
pub fn set(text: &str, key: &str, value: &str) -> (r: Result<String, InvalidName>)
    ensures
        r is Ok <==> valid_name(key@),
        r matches Ok(t) ==> t@ == set_var_spec(text@, key@, value@),
        r matches Err(InvalidName(k)) ==> k@ == key@,
{
    match validate_key(key) {
        Ok(()) => Ok(set_var(text, key, value)),
        Err(e) => Err(e),
    }
}

/// `unset`: the file's text without the lines that assign `key`, for a
/// valid name that some line assigns.
pub fn unset(text: &str, key: &str) -> (r: Result<String, UnsetError>)
    ensures
        r matches Err(UnsetError::Invalid(_)) <==> !valid_name(key@),
        r matches Err(UnsetError::Invalid(InvalidName(k))) ==> k@ == key@,
        r matches Err(UnsetError::NotSet(_)) <==> valid_name(key@) && !has_assignment(
            lines(text@),
            key@,
        ),
        r matches Err(UnsetError::NotSet(k)) ==> k@ == key@,
        r matches Ok(t) ==> t@ == unset_var_spec(text@, key@),
{
    match validate_key(key) {
        Ok(()) => {
            let (updated, found) = unset_var(text, key);
            if found {
                Ok(updated)
            } else {
                Err(UnsetError::NotSet(key.to_owned()))
            }
        },
        Err(e) => Err(UnsetError::Invalid(e)),
    }
}

} // verus!

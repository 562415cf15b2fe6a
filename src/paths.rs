use vstd::prelude::*;

verus! {

/// Why no settings path could be chosen.
#[derive(PartialEq, Eq, Structural, Clone, Copy, Debug)]
pub enum PathError {
    /// No override is set and the platform gives no default location.
    NoDefaultPath,
}

/// What `str::trim` returns for the characters `s`.
pub uninterp spec fn trimmed_text(s: Seq<char>) -> Seq<char>;

/// Relies on `str::trim`: the result depends on the characters alone.
#[verifier::external_body]
fn trim_text(s: &str) -> (r: &str)
    ensures
        r@ == trimmed_text(s@),
{
    s.trim()
}

/// The path that the choice gives: the override when it is not empty,
/// else the default.
pub open spec fn chosen_path(over: Option<Seq<char>>, default_path: Option<Seq<char>>) -> Option<
    Seq<char>,
> {
    match over {
        Some(o) if o.len() > 0 => Some(o),
        _ => default_path,
    }
}

/// The chosen path, if any.
pub open spec fn path_result_view(r: Result<String, PathError>) -> Option<Seq<char>> {
    match r {
        Ok(p) => Some(p@),
        Err(_) => None,
    }
}

/// Chooses between an already trimmed override and the platform default.
pub fn choose_settings_path(trimmed_override: Option<&str>, default_path: Option<String>) -> (r:
    Result<String, PathError>)
    ensures
        path_result_view(r) == chosen_path(
            match trimmed_override {
                Some(t) => Some(t@),
                None => None,
            },
            match default_path {
                Some(p) => Some(p@),
                None => None,
            },
        ),
{
    if let Some(t) = trimmed_override {
        if !t.is_empty() {
            return Ok(t.to_owned());
        }
    }
    match default_path {
        Some(p) => Ok(p),
        None => Err(PathError::NoDefaultPath),
    }
}

/// The settings file to edit: the user's override, trimmed, when it is not
/// blank, else the platform default.
pub fn get_vscode_settings_path(custom_path: Option<&str>, default_path: Option<String>) -> (r:
    Result<String, PathError>)
    ensures
        path_result_view(r) == chosen_path(
            match custom_path {
                Some(c) => Some(trimmed_text(c@)),
                None => None,
            },
            match default_path {
                Some(p) => Some(p@),
                None => None,
            },
        ),
{
    let trimmed = match custom_path {
        Some(c) => Some(trim_text(c)),
        None => None,
    };
    choose_settings_path(trimmed, default_path)
}

} // verus!

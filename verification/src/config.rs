//! The configuration: the `[mordant]` table of `mordant.toml` in the
//! workspace root, or the text of a variable of the environment.

use vstd::prelude::*;

use crate::text::{contains, opt_view, views};

verus! {

/// The table of the configuration that holds the settings.
pub const TABLE: &'static str = "mordant";

/// The string that a table of a configuration has for a key.
pub uninterp spec fn setting_in(
    config: Seq<char>,
    table: Seq<char>,
    key: Seq<char>,
) -> Option<Seq<char>>;

/// The strings of the array that a table of a configuration has for a key.
pub uninterp spec fn list_in(
    config: Seq<char>,
    table: Seq<char>,
    key: Seq<char>,
) -> Option<Seq<Seq<char>>>;

/// `toml::from_str` of a configuration, and the string at `key` in its table
/// `table`. It is a function of the three, and none when the text is no TOML
/// or has no such string.
#[verifier::external_body]
fn setting(config: &str, table: &str, key: &str) -> (value: Option<String>)
    ensures
        opt_view(value) == setting_in(config@, table@, key@),
{
    let tables: toml::Table = toml::from_str(config).ok()?;
    let value = tables.get(table)?.get(key)?.as_str()?;
    Some(value.to_string())
}

/// `toml::from_str` of a configuration, and the strings of the array at `key`
/// in its table `table`. They are a function of the three, and none when the
/// text is no TOML, or has no array there, or has one with anything but
/// strings.
#[verifier::external_body]
fn list(config: &str, table: &str, key: &str) -> (values: Option<Vec<String>>)
    ensures
        match values {
            Some(values) => list_in(config@, table@, key@) == Some(views(values@)),
            None => list_in(config@, table@, key@) is None,
        },
{
    let tables: toml::Table = toml::from_str(config).ok()?;
    let values = tables.get(table)?.get(key)?.as_array()?;
    values.iter().map(|v| v.as_str().map(str::to_string)).collect()
}

/// The baseline file the configuration names, if it names one.
pub fn baseline_name(config: &str) -> (name: Option<String>)
    ensures
        opt_view(name) == setting_in(config@, TABLE@, "baseline"@),
{
    setting(config, TABLE, "baseline")
}

/// Whether a list of what is disabled names the lint or its family.
pub open spec fn disables(
    disabled: Option<Seq<Seq<char>>>,
    lint: Seq<char>,
    family: Seq<char>,
) -> bool {
    disabled matches Some(disabled) && (disabled.contains(lint) || disabled.contains(
        "group:"@ + family,
    ))
}

/// Whether a list of what is disabled names the lint or its family.
pub fn is_named(disabled: Option<&Vec<String>>, lint: &str, family: &str) -> (r: bool)
    ensures
        r == disables(
            match disabled {
                Some(disabled) => Some(views(disabled@)),
                None => None,
            },
            lint@,
            family@,
        ),
{
    match disabled {
        Some(disabled) => {
            let group = "group:".to_owned().concat(family);
            contains(disabled, lint) || contains(disabled, group.as_str())
        },
        None => false,
    }
}

/// Whether the configuration disables the lint: `disabled` takes a lint name
/// or a whole family.
pub fn is_disabled(config: &str, lint: &str, family: &str) -> (r: bool)
    ensures
        r == disables(list_in(config@, TABLE@, "disabled"@), lint@, family@),
{
    let disabled = list(config, TABLE, "disabled");
    is_named(
        match &disabled {
            Some(disabled) => Some(disabled),
            None => None,
        },
        lint,
        family,
    )
}

/// A lint is disabled by its own name or by its family's behind `group:`, and
/// by no other entry; a configuration without a list disables nothing.
pub proof fn a_lint_is_disabled_by_its_name_or_its_family(
    disabled: Seq<Seq<char>>,
    lint: Seq<char>,
    family: Seq<char>,
    i: int,
)
    requires
        0 <= i < disabled.len(),
    ensures
        disabled[i] == lint ==> disables(Some(disabled), lint, family),
        disabled[i] == "group:"@ + family ==> disables(Some(disabled), lint, family),
        disables(Some(disabled), lint, family) ==> exists|k: int|
            0 <= k < disabled.len() && (#[trigger] disabled[k] == lint || disabled[k] == "group:"@
                + family),
        !disables(None, lint, family),
{
    assert(disabled.contains(disabled[i]));
    if disables(Some(disabled), lint, family) {
        if disabled.contains(lint) {
            let k = choose|k: int| 0 <= k < disabled.len() && disabled[k] == lint;
            assert(disabled[k] == lint);
        } else {
            let k = choose|k: int| 0 <= k < disabled.len() && disabled[k] == "group:"@ + family;
            assert(disabled[k] == "group:"@ + family);
        }
    }
}

} // verus!

//! The string keys under which each view's preferences are persisted: one
//! namespace per page, one key per setting, joined with a dash.
use vstd::prelude::*;

verus! {

use vstd::string::StringExecFns;

/// The per-view namespace a setting is stored under.
#[derive(Clone, Copy, PartialEq, Eq, Structural, Debug)]
pub enum SettingsNamespace {
    AppsPage,
    ServicesPage,
}

/// The settings that exist in every namespace.
#[derive(Clone, Copy, PartialEq, Eq, Structural, Debug)]
pub enum SettingsValues {
    SortingColumnName,
    SortingOrder,
    ColumnOrder,
}

impl SettingsNamespace {
    /// The namespace's key fragment.
    pub open spec fn spec_key(self) -> Seq<char> {
        match self {
            SettingsNamespace::AppsPage => "apps-page"@,
            SettingsNamespace::ServicesPage => "services-page"@,
        }
    }

    pub fn key_to_string(&self) -> (r: &'static str)
        ensures
            r@ == self.spec_key(),
    {
        match self {
            SettingsNamespace::AppsPage => "apps-page",
            SettingsNamespace::ServicesPage => "services-page",
        }
    }

    /// The full key of one setting in this namespace.
    pub open spec fn spec_format_value(self, value: SettingsValues) -> Seq<char> {
        self.spec_key() + "-"@ + value.spec_key()
    }

    pub fn format_value(&self, value: &SettingsValues) -> (r: String)
        ensures
            r@ == self.spec_format_value(*value),
    {
        let mut r = String::from_str(self.key_to_string());
        r.append("-");
        r.append(value.key_to_string());
        r
    }
}

impl SettingsValues {
    /// The setting's key fragment.
    pub open spec fn spec_key(self) -> Seq<char> {
        match self {
            SettingsValues::SortingColumnName => "sorting-column-name"@,
            SettingsValues::SortingOrder => "sorting-order"@,
            SettingsValues::ColumnOrder => "column-order"@,
        }
    }

    pub fn key_to_string(&self) -> (r: &'static str)
        ensures
            r@ == self.spec_key(),
    {
        match self {
            SettingsValues::SortingColumnName => "sorting-column-name",
            SettingsValues::SortingOrder => "sorting-order",
            SettingsValues::ColumnOrder => "column-order",
        }
    }
}

/// The persisted key of one setting for one view.
pub fn format_settings_key(namespace: SettingsNamespace, key: &SettingsValues) -> (r: String)
    ensures
        r@ == namespace.spec_format_value(*key),
{
    namespace.format_value(key)
}

} // verus!

use vstd::prelude::*;
use vstd::string::StringExecFns;
use crate::types::{Namespace, TypeName, TypeNameV};

verus! {

/// Declaration of `syn::Item` so that binding items can carry the raw
/// top-level fragments the header parser emitted; the graph core never
/// looks inside one.
#[verifier::external_type_specification]
#[verifier::external_body]
pub struct ExSynItem(syn::Item);

/// Declaration of `syn::ForeignItem`, the raw foreign-interface fragment a
/// binding item may carry for codegen; opaque to the graph core.
#[verifier::external_type_specification]
#[verifier::external_body]
pub struct ExSynForeignItem(syn::ForeignItem);

/// Conditions raised while turning parser output into the binding-item
/// graph. All are fatal to the current conversion run; none is retried.
#[derive(Debug)]
pub enum ConvertError {
    NoContent,
    UnsafePODType(String),
    UnexpectedForeignItem,
    UnexpectedOuterItem,
    UnexpectedItemInMod,
    ComplexTypedefTarget(String),
    UnexpectedThisType,
}

impl ConvertError {
    /// The user-visible description of this error.
    pub fn describe(&self) -> (r: String)
        ensures
            r@ == self.describe_spec(),
    {
        match self {
            ConvertError::NoContent => String::from_str(
                "The initial run of 'bindgen' did not generate any content. This might be because none of the requested items for generation could be converted.",
            ),
            ConvertError::UnsafePODType(err) => String::from_str(
                "An item was requested using 'generate_pod' which was not safe to hold by value in Rust. ",
            ).concat(err.as_str()),
            ConvertError::UnexpectedForeignItem => String::from_str(
                "Bindgen generated some unexpected code in a foreign mod section. You may have specified something in a 'generate' directive which is not currently compatible with autocxx.",
            ),
            ConvertError::UnexpectedOuterItem => String::from_str(
                "Bindgen generated some unexpected code in its outermost mod section. You may have specified something in a 'generate' directive which is not currently compatible with autocxx.",
            ),
            ConvertError::UnexpectedItemInMod => String::from_str(
                "Bindgen generated some unexpected code in an inner namespace mod. You may have specified something in a 'generate' directive which is not currently compatible with autocxx.",
            ),
            ConvertError::ComplexTypedefTarget(ty) => String::from_str(
                "autocxx was unable to produce a typdef pointing to the complex type ",
            ).concat(ty.as_str()).concat("."),
            ConvertError::UnexpectedThisType => String::from_str("Unexpected type for 'this'"),
        }
    }

    /// What `describe` returns for each variant.
    pub open spec fn describe_spec(&self) -> Seq<char> {
        match self {
            ConvertError::NoContent => "The initial run of 'bindgen' did not generate any content. This might be because none of the requested items for generation could be converted."@,
            ConvertError::UnsafePODType(err) => "An item was requested using 'generate_pod' which was not safe to hold by value in Rust. "@ + err@,
            ConvertError::UnexpectedForeignItem => "Bindgen generated some unexpected code in a foreign mod section. You may have specified something in a 'generate' directive which is not currently compatible with autocxx."@,
            ConvertError::UnexpectedOuterItem => "Bindgen generated some unexpected code in its outermost mod section. You may have specified something in a 'generate' directive which is not currently compatible with autocxx."@,
            ConvertError::UnexpectedItemInMod => "Bindgen generated some unexpected code in an inner namespace mod. You may have specified something in a 'generate' directive which is not currently compatible with autocxx."@,
            ConvertError::ComplexTypedefTarget(ty) => "autocxx was unable to produce a typdef pointing to the complex type "@ + ty@ + "."@,
            ConvertError::UnexpectedThisType => "Unexpected type for 'this'"@,
        }
    }
}

/// Whether and how a binding item should be exposed in the modules
/// constructed for end-user use: not requested, requested under its own
/// name, or requested under a rebound alias.
pub enum Use {
    Unused,
    Used,
    UsedWithAlias(String),
}

/// A marker describing extra native-side code an item needs synthesized,
/// for example a helper wrapper function.
pub struct AdditionalNeed {
    pub description: String,
}

/// One candidate binding discovered from the native headers. Everything is
/// stored in these nodes because unnecessary ones are garbage-collected
/// later, using the `deps` field as the edges of the graph.
pub struct Api {
    pub ns: Namespace,
    pub id: String,
    pub use_stmt: Use,
    pub deps: Vec<TypeName>,
    pub extern_c_mod_item: Option<syn::ForeignItem>,
    pub bridge_item: Option<syn::Item>,
    pub global_items: Vec<syn::Item>,
    pub additional_cpp: Option<AdditionalNeed>,
    pub id_for_allowlist: Option<String>,
    pub bindgen_mod_item: Option<syn::Item>,
}

impl Api {
    /// The identity this item contributes to the graph's key space.
    pub open spec fn typename_spec(&self) -> TypeNameV {
        TypeNameV { ns: self.ns@, id: self.id@ }
    }

    /// The identifier under which this item is exported to the native-side
    /// allow-list filter: the explicit override if set, else the alias if the
    /// item is used under one, else its own declared identifier.
    pub open spec fn allowlist_id_spec(&self) -> Seq<char> {
        match self.id_for_allowlist {
            Option::Some(id) => id@,
            Option::None => match self.use_stmt {
                Use::UsedWithAlias(alias) => alias@,
                _ => self.id@,
            },
        }
    }

    /// The identity matched against allow-list entries.
    pub open spec fn typename_for_allowlist_spec(&self) -> TypeNameV {
        TypeNameV { ns: self.ns@, id: self.allowlist_id_spec() }
    }

    /// The canonical name of this item, always from its own identifier.
    pub fn typename(&self) -> (r: TypeName)
        ensures
            r@ == self.typename_spec(),
    {
        TypeName::new(&self.ns, self.id.as_str())
    }

    /// The name used when matching this item against the allow-list, which
    /// must match the native symbol: the explicit allow-list override wins
    /// over an alias, and an alias wins over the declared identifier.
    pub fn typename_for_allowlist(&self) -> (r: TypeName)
        ensures
            r@ == self.typename_for_allowlist_spec(),
    {
        let id_for_allowlist: &String = match &self.id_for_allowlist {
            Option::None => match &self.use_stmt {
                Use::UsedWithAlias(alias) => alias,
                _ => &self.id,
            },
            Option::Some(id) => id,
        };
        TypeName::new(&self.ns, id_for_allowlist.as_str())
    }
}

/// Law: for an item with an explicit allow-list override, the allow-list
/// name is the override — never the alias, even when one is set, and never
/// the declared identifier.
pub proof fn lemma_allowlist_override_precedence(api: Api, overridden: String)
    requires
        api.id_for_allowlist == Option::Some(overridden),
    ensures
        api.typename_for_allowlist_spec() == (TypeNameV { ns: api.ns@, id: overridden@ }),
{
}

/// Law: for an item used under an alias and carrying no override, the
/// allow-list name is the alias, not the declared identifier.
pub proof fn lemma_alias_precedence(api: Api, alias: String)
    requires
        api.id_for_allowlist is None,
        api.use_stmt == Use::UsedWithAlias(alias),
    ensures
        api.typename_for_allowlist_spec() == (TypeNameV { ns: api.ns@, id: alias@ }),
{
}

} // verus!

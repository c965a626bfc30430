//! Generic capture of namespaced extension elements met while reading a feed
//! document, and an index of the captured trees by namespace and local name.
mod assoc;
mod builder;
mod extension;
mod index;
mod qname;

pub use assoc::{assoc_view, has_unique_keys, keys_unique};
pub use builder::{
    lemma_last_text_wins, lemma_truncated_input, parse_content, parse_element,
    parse_extension_element, ParseError, XmlEvent,
};
pub use extension::{
    ext_model, ext_wf, get_extension_values, is_well_formed, lemma_take_value, remove_extension_value, Extension,
    ExtensionMap, ExtensionModel, IndexModel,
};
pub use index::{
    index_extension, index_insert, index_is_well_formed, index_model, index_wf, lemma_appends_in_order,
    lemma_new_namespace_left_empty, parse_extension, utf8_text,
};
pub use qname::{
    extension_name, first_colon_at, lemma_prefixed_names, lemma_unprefixed_names,
    split_qualified_name, COLON,
};

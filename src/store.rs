use vstd::prelude::*;
use crate::config::{config_is_valid, Config, DuplicateBehavior, OnDelinkBehavior};
use crate::paths::views;

verus! {

#[verifier::external_type_specification]
#[verifier::external_body]
pub struct ExDocumentMut(toml_edit::DocumentMut);

#[verifier::external_type_specification]
#[verifier::external_body]
pub struct ExTomlError(toml_edit::TomlError);

/// Whether `text` is a well-formed TOML document.
pub uninterp spec fn is_toml_document(text: Seq<char>) -> bool;

/// The string values of a document that a path of keys reaches through
/// tables and inline tables, by that path.
pub uninterp spec fn doc_strings(d: toml_edit::DocumentMut) -> Map<Seq<Seq<char>>, Seq<char>>;

/// The arrays of strings of a document that a path of keys reaches through
/// tables and inline tables, by that path.
pub uninterp spec fn doc_string_lists(d: toml_edit::DocumentMut) -> Map<Seq<Seq<char>>, Seq<Seq<char>>>;

/// The top-level keys of a document whose entry has no keys of its own
/// (neither a table nor an inline table).
pub uninterp spec fn doc_keyless(d: toml_edit::DocumentMut) -> Set<Seq<char>>;

/// `doc_strings` of the document that `text` parses to.
pub uninterp spec fn toml_strings(text: Seq<char>) -> Map<Seq<Seq<char>>, Seq<char>>;

/// `doc_string_lists` of the document that `text` parses to.
pub uninterp spec fn toml_string_lists(text: Seq<char>) -> Map<Seq<Seq<char>>, Seq<Seq<char>>>;

/// `doc_keyless` of the document that `text` parses to.
pub uninterp spec fn toml_keyless(text: Seq<char>) -> Set<Seq<char>>;

/// The key path `p` goes through `prefix` (or is it).
pub open spec fn under(p: Seq<Seq<char>>, prefix: Seq<Seq<char>>) -> bool {
    prefix.len() <= p.len() && p.subrange(0, prefix.len() as int) == prefix
}

/// `m` without the entries at or below `prefix`.
pub open spec fn drop_under<V>(m: Map<Seq<Seq<char>>, V>, prefix: Seq<Seq<char>>) -> Map<Seq<Seq<char>>, V> {
    m.restrict(m.dom().filter(|p: Seq<Seq<char>>| !under(p, prefix)))
}

/// `m` with whatever stood at or below `at` replaced by `v`.
pub open spec fn put<V>(m: Map<Seq<Seq<char>>, V>, at: Seq<Seq<char>>, v: V) -> Map<Seq<Seq<char>>, V> {
    drop_under(m, at).insert(at, v)
}

/// Relies on `<toml_edit::DocumentMut as FromStr>::from_str`: it fails
/// exactly on text that is not TOML, and the document holds what the text
/// says.
#[verifier::external_body]
fn parse_document(text: &str) -> (r: Result<toml_edit::DocumentMut, toml_edit::TomlError>)
    ensures
        r is Ok <==> is_toml_document(text@),
        r matches Ok(d) ==> doc_strings(d) == toml_strings(text@) && doc_string_lists(d)
            == toml_string_lists(text@) && doc_keyless(d) == toml_keyless(text@),
{
    text.parse::<toml_edit::DocumentMut>()
}

/// Relies on `IndexMut<&str> for toml_edit::DocumentMut` and
/// `toml_edit::value`: the top-level entry `key` becomes the string `v`,
/// replacing whatever it held.
#[verifier::external_body]
fn set_top_string(doc: &mut toml_edit::DocumentMut, key: &str, v: &str)
    ensures
        doc_strings(*final(doc)) == put(doc_strings(*old(doc)), seq![key@], v@),
        doc_string_lists(*final(doc)) == drop_under(doc_string_lists(*old(doc)), seq![key@]),
        doc_keyless(*final(doc)) == doc_keyless(*old(doc)).insert(key@),
{
    doc[key] = toml_edit::value(v);
}

/// Relies on `IndexMut<&str> for toml_edit::DocumentMut` and
/// `FromIterator for toml_edit::Array`: the top-level entry `key` becomes
/// an array of the strings of `items`, in order, replacing whatever it held.
#[verifier::external_body]
fn set_top_strings(doc: &mut toml_edit::DocumentMut, key: &str, items: &Vec<String>)
    ensures
        doc_strings(*final(doc)) == drop_under(doc_strings(*old(doc)), seq![key@]),
        doc_string_lists(*final(doc)) == put(doc_string_lists(*old(doc)), seq![key@], views(items@)),
        doc_keyless(*final(doc)) == doc_keyless(*old(doc)).insert(key@),
{
    let array: toml_edit::Array = items.iter().map(|s| s.as_str()).collect();
    doc[key] = toml_edit::Item::Value(toml_edit::Value::Array(array));
}

/// Relies on `IndexMut<&str> for toml_edit::DocumentMut` and
/// `toml_edit::Item::get_mut`: where the top-level entry `table` is a
/// table, an inline table or absent (it then becomes an inline table), its
/// `key` becomes the string `v`; `false`, with nothing changed, where that
/// entry has no keys.
#[verifier::external_body]
fn set_table_string(doc: &mut toml_edit::DocumentMut, table: &str, key: &str, v: &str) -> (r: bool)
    ensures
        r == !doc_keyless(*old(doc)).contains(table@),
        r ==> doc_strings(*final(doc)) == put(doc_strings(*old(doc)), seq![table@, key@], v@)
            && doc_string_lists(*final(doc)) == drop_under(doc_string_lists(*old(doc)), seq![table@, key@])
            && doc_keyless(*final(doc)) == doc_keyless(*old(doc)),
        !r ==> doc_strings(*final(doc)) == doc_strings(*old(doc)) && doc_string_lists(*final(doc))
            == doc_string_lists(*old(doc)) && doc_keyless(*final(doc)) == doc_keyless(*old(doc)),
{
    match doc[table].get_mut(key) {
        Some(item) => {
            *item = toml_edit::value(v);
            true
        },
        None => false,
    }
}

/// Relies on `Display for toml_edit::DocumentMut`: the document's text,
/// with its comments, which parses back to the same contents.
#[verifier::external_body]
fn document_text(doc: &toml_edit::DocumentMut) -> (r: String)
    ensures
        is_toml_document(r@),
        toml_strings(r@) == doc_strings(*doc),
        toml_string_lists(r@) == doc_string_lists(*doc),
        toml_keyless(r@) == doc_keyless(*doc),
{
    doc.to_string()
}

/// Why the configuration could not be written back.
#[derive(Debug, Clone, PartialEq, Eq)]
pub enum SaveError {
    /// The configuration breaks a validation rule; the message says which.
    Invalid(String),
    /// The stored text is not a TOML document.
    NotToml,
    /// The `defaults` entry of the stored document is not a table.
    DefaultsNotTable,
}

/// The name under which a duplicate policy is stored.
pub open spec fn duplicate_name(b: DuplicateBehavior) -> Seq<char> {
    match b {
        DuplicateBehavior::Ask => "ask"@,
        DuplicateBehavior::OverwriteHome => "overwritehome"@,
        DuplicateBehavior::OverwriteDotfile => "overwritedotfile"@,
        DuplicateBehavior::BackupHome => "backuphome"@,
        DuplicateBehavior::Skip => "skip"@,
    }
}

/// The name under which a delink policy is stored.
pub open spec fn delink_name(b: OnDelinkBehavior) -> Seq<char> {
    match b {
        OnDelinkBehavior::Remove => "remove"@,
        OnDelinkBehavior::Keep => "keep"@,
    }
}

pub open spec fn dotfolder_key() -> Seq<Seq<char>> {
    seq!["dotfolder_path"@]
}

pub open spec fn paths_key() -> Seq<Seq<char>> {
    seq!["paths"@]
}

pub open spec fn on_duplicate_key() -> Seq<Seq<char>> {
    seq!["defaults"@, "on_duplicate"@]
}

pub open spec fn on_delink_key() -> Seq<Seq<char>> {
    seq!["defaults"@, "on_delink"@]
}

/// The string values of the stored document once `c` is written into it.
pub open spec fn saved_strings(before: Map<Seq<Seq<char>>, Seq<char>>, c: Config) -> Map<Seq<Seq<char>>, Seq<char>> {
    put(
        put(
            drop_under(put(before, dotfolder_key(), c.dotfolder_path@), paths_key()),
            on_duplicate_key(),
            duplicate_name(c.defaults.on_duplicate),
        ),
        on_delink_key(),
        delink_name(c.defaults.on_delink),
    )
}

/// The string arrays of the stored document once `c` is written into it.
pub open spec fn saved_string_lists(before: Map<Seq<Seq<char>>, Seq<Seq<char>>>, c: Config) -> Map<
    Seq<Seq<char>>,
    Seq<Seq<char>>,
> {
    drop_under(
        drop_under(
            put(drop_under(before, dotfolder_key()), paths_key(), views(c.paths@)),
            on_duplicate_key(),
        ),
        on_delink_key(),
    )
}

impl DuplicateBehavior {
    pub fn name(&self) -> (r: String)
        ensures
            r@ == duplicate_name(*self),
    {
        match self {
            DuplicateBehavior::Ask => "ask".to_string(),
            DuplicateBehavior::OverwriteHome => "overwritehome".to_string(),
            DuplicateBehavior::OverwriteDotfile => "overwritedotfile".to_string(),
            DuplicateBehavior::BackupHome => "backuphome".to_string(),
            DuplicateBehavior::Skip => "skip".to_string(),
        }
    }
}

impl OnDelinkBehavior {
    pub fn name(&self) -> (r: String)
        ensures
            r@ == delink_name(*self),
    {
        match self {
            OnDelinkBehavior::Remove => "remove".to_string(),
            OnDelinkBehavior::Keep => "keep".to_string(),
        }
    }
}

impl Config {
    /// The stored configuration text `existing` with `dotfolder_path`,
    /// `paths` and the two policies replaced by this configuration's, and
    /// everything else (comments included) kept. Refused when this
    /// configuration is invalid (read against `home`) or `existing` is not
    /// TOML.
    pub fn render(&self, existing: &str, home: &str) -> (r: Result<String, SaveError>)
        ensures
            !config_is_valid(self.dotfolder_path@, views(self.paths@), home@) <==> r matches Err(SaveError::Invalid(_)),
            config_is_valid(self.dotfolder_path@, views(self.paths@), home@) ==> (r matches Err(SaveError::NotToml)
                <==> !is_toml_document(existing@)),
            config_is_valid(self.dotfolder_path@, views(self.paths@), home@) && is_toml_document(existing@) ==> (r
                matches Err(SaveError::DefaultsNotTable) <==> toml_keyless(existing@).contains("defaults"@)),
            config_is_valid(self.dotfolder_path@, views(self.paths@), home@) && is_toml_document(existing@)
                && !toml_keyless(existing@).contains("defaults"@) ==> r is Ok,
            r matches Ok(t) ==> {
                &&& is_toml_document(t@)
                &&& toml_strings(t@) == saved_strings(toml_strings(existing@), *self)
                &&& toml_string_lists(t@) == saved_string_lists(toml_string_lists(existing@), *self)
                &&& toml_keyless(t@) == toml_keyless(existing@).insert("dotfolder_path"@).insert("paths"@)
            },
    {
        if let Err(e) = self.validate_config(home) {
            return Err(SaveError::Invalid(e));
        }
        let mut doc = match parse_document(existing) {
            Ok(doc) => doc,
            Err(_) => return Err(SaveError::NotToml),
        };
        set_top_string(&mut doc, "dotfolder_path", self.dotfolder_path.as_str());
        set_top_strings(&mut doc, "paths", &self.paths);
        proof {
            reveal_strlit("defaults");
            reveal_strlit("dotfolder_path");
            reveal_strlit("paths");
            assert("defaults"@.len() != "dotfolder_path"@.len());
            assert("defaults"@.len() != "paths"@.len());
        }
        let dup = self.defaults.on_duplicate.name();
        if !set_table_string(&mut doc, "defaults", "on_duplicate", dup.as_str()) {
            return Err(SaveError::DefaultsNotTable);
        }
        let del = self.defaults.on_delink.name();
        if !set_table_string(&mut doc, "defaults", "on_delink", del.as_str()) {
            return Err(SaveError::DefaultsNotTable);
        }
        Ok(document_text(&doc))
    }
}

} // verus!

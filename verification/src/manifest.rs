//! Reading a manifest: from text in one of several formats to the mapping of
//! package names to versions that it declares.

use crate::order::{same_text, unique_names, Key};
use vstd::prelude::*;
use vstd::utf8::{encode_utf8, is_char_boundary};

verus! {

/// `serde_json::Map`, the map of a JSON object. Nothing is claimed of it: a
/// value of it is carried from a reader to `document_of`.
#[verifier::external_type_specification]
#[verifier::external_body]
#[verifier::reject_recursive_types(K)]
#[verifier::reject_recursive_types(V)]
pub struct ExJsonMap<K, V>(serde_json::Map<K, V>);

/// `serde_json::Value`, any JSON value. Nothing is claimed of it: it stands in
/// the type of the maps that the readers give.
#[verifier::external_type_specification]
#[verifier::external_body]
pub struct ExJsonValue(serde_json::Value);

/// `serde_json::Error`, what the JSON reader or writer says when it fails.
/// Nothing is claimed of it: a value of it is carried to the caller.
#[verifier::external_type_specification]
#[verifier::external_body]
pub struct ExJsonError(serde_json::Error);

/// A table of a document: its keys in the order of the document, each with its
/// value where that value is a text.
pub type Table = Vec<(String, Option<String>)>;

/// A document, as far as a manifest is read from it: its top-level keys in the
/// order of the document, each with its value where that value is a table.
pub type Document = Vec<(String, Option<Table>)>;

/// The tables of a document that holds nothing but tables of texts: its keys,
/// each with the entries of its table.
pub type Tables = Vec<(String, Vec<(String, String)>)>;

/// The view of [`Tables`].
pub type TablesView = Seq<(Seq<char>, Seq<Key>)>;

/// The view of a [`Table`].
pub type TableView = Seq<(Seq<char>, Option<Seq<char>>)>;

/// The view of a [`Document`].
pub type DocumentView = Seq<(Seq<char>, Option<TableView>)>;

/// What a map of `serde_json` holds, as a document.
pub uninterp spec fn map_document(m: serde_json::Map<String, serde_json::Value>) -> Seq<
    (Seq<char>, Option<Seq<(Seq<char>, Option<Seq<char>>)>>),
>;

/// The tables of texts that `deser_hjson::from_str` reads from a text, their
/// keys in ascending order; `None` where it fails.
pub uninterp spec fn hjson_tables(text: Seq<char>) -> Option<
    Seq<(Seq<char>, Seq<(Seq<char>, Seq<char>)>)>,
>;

/// The tables of texts that `serde_yaml::from_str` reads from a text, their
/// keys in ascending order; `None` where it fails.
pub uninterp spec fn yaml_tables(text: Seq<char>) -> Option<
    Seq<(Seq<char>, Seq<(Seq<char>, Seq<char>)>)>,
>;

/// The map that `deser_hjson::from_str` reads from a text, as a document;
/// `None` where it fails.
pub uninterp spec fn hjson_document(text: Seq<char>) -> Option<
    Seq<(Seq<char>, Option<Seq<(Seq<char>, Option<Seq<char>>)>>)>,
>;

/// The map that `serde_yaml::from_str` reads from a text, as a document;
/// `None` where it fails.
pub uninterp spec fn yaml_document(text: Seq<char>) -> Option<
    Seq<(Seq<char>, Option<Seq<(Seq<char>, Option<Seq<char>>)>>)>,
>;

/// The map that `toml::from_str` reads from a text, as a document; `None`
/// where it fails.
pub uninterp spec fn toml_document(text: Seq<char>) -> Option<
    Seq<(Seq<char>, Option<Seq<(Seq<char>, Option<Seq<char>>)>>)>,
>;

/// The map that `serde_json::from_str` reads from a text, as a document;
/// `None` where it fails.
pub uninterp spec fn json_document(text: Seq<char>) -> Option<
    Seq<(Seq<char>, Option<Seq<(Seq<char>, Option<Seq<char>>)>>)>,
>;

/// No key stands twice in the table.
pub open spec fn unique_keys(table: TableView) -> bool {
    forall|i: int, j: int| 0 <= i < j < table.len() ==> table[i].0 != table[j].0
}

/// No key stands twice in a table of the document.
pub open spec fn tables_unique(doc: DocumentView) -> bool {
    forall|i: int|
        0 <= i < doc.len() ==> ((#[trigger] doc[i]).1 matches Some(table) ==> unique_keys(table))
}

/// No name stands twice in one of the tables of texts.
pub open spec fn names_unique(tables: TablesView) -> bool {
    forall|i: int| 0 <= i < tables.len() ==> unique_names((#[trigger] tables[i]).1)
}

/// How many levels of nesting the readers without a limit of their own are
/// asked to follow.
pub const NESTING_LIMIT: usize = 128;

/// How many of the first `i` bytes are a `[` or a `{`.
pub open spec fn openers(bytes: Seq<u8>, i: int) -> int
    decreases i,
{
    if i <= 0 {
        0
    } else if bytes[i - 1] == 0x5b || bytes[i - 1] == 0x7b {
        openers(bytes, i - 1) + 1
    } else {
        openers(bytes, i - 1)
    }
}

/// How many of the first `i` bytes are a `.` in the line that these bytes end
/// in.
pub open spec fn dots_in_line(bytes: Seq<u8>, i: int) -> int
    decreases i,
{
    if i <= 0 {
        0
    } else if bytes[i - 1] == 0x0a {
        0
    } else if bytes[i - 1] == 0x2e {
        dots_in_line(bytes, i - 1) + 1
    } else {
        dots_in_line(bytes, i - 1)
    }
}

/// The largest number of `.` in one line, among the first `i` bytes.
pub open spec fn most_dots(bytes: Seq<u8>, i: int) -> int
    decreases i,
{
    if i <= 0 {
        0
    } else if dots_in_line(bytes, i) > most_dots(bytes, i - 1) {
        dots_in_line(bytes, i)
    } else {
        most_dots(bytes, i - 1)
    }
}

/// A text of these bytes is not nested too deep for the Hjson reader, which
/// goes one level down for every `[` or `{` that opens a list or a table and
/// has no limit of its own. All of them are counted, not only those that are
/// still open: a `]` or `}` inside a string closes nothing.
pub open spec fn hjson_nests(bytes: Seq<u8>) -> bool {
    openers(bytes, bytes.len() as int) <= NESTING_LIMIT
}

/// A text of these bytes is not nested too deep for the TOML reader, which has
/// no limit of its own. It goes one level down for every `[` or `{` that opens
/// a list or a table, and one for every part of a dotted key, which stands in
/// one line: so there are no more levels than two more than the `[` and `{`
/// of the text, times two more than the most `.` in a line.
pub open spec fn toml_nests(bytes: Seq<u8>) -> bool {
    (openers(bytes, bytes.len() as int) + 2) * (most_dots(bytes, bytes.len() as int) + 2)
        <= NESTING_LIMIT
}

/// The Hjson reader can take a text of these bytes. Behind an apostrophe it
/// looks at three bytes at once, and behind `\u` at four: neither may end
/// inside a character.
pub open spec fn hjson_takes(bytes: Seq<u8>) -> bool {
    forall|p: int|
        0 <= p < bytes.len() ==> {
            &&& (#[trigger] bytes[p]) == 0x27 && p + 3 <= bytes.len() ==> is_char_boundary(
                bytes,
                p + 3,
            )
            &&& bytes[p] == 0x5c && p + 6 <= bytes.len() && bytes[p + 1] == 0x75
                ==> is_char_boundary(bytes, p + 6)
        }
}

/// Calls `deser_hjson::from_str` for a `BTreeMap` of `BTreeMap`s from `String`
/// to `String`, and hands out what they hold, in their own order. The contract
/// claims that the outcome is a function of the text: `hjson_tables` names it;
/// and that no key stands twice in one of the maps. The text is one that the
/// reader can take; on others it cuts a character in two and panics.
#[verifier::external_body]
fn read_hjson_tables(text: &str) -> (r: Option<Tables>)
    requires
        hjson_takes(encode_utf8(text@)),
    ensures
        r.deep_view() == hjson_tables(text@),
        r.deep_view() matches Some(tables) ==> names_unique(tables),
{
    deser_hjson::from_str::<
        std::collections::BTreeMap<String, std::collections::BTreeMap<String, String>>,
    >(text).ok().map(|m| m.into_iter().map(|(k, t)| (k, t.into_iter().collect())).collect())
}

/// Calls `serde_yaml::from_str` for a `BTreeMap` of `BTreeMap`s from `String`
/// to `String`, and hands out what they hold, in their own order. The contract
/// claims that the outcome is a function of the text: `yaml_tables` names it;
/// and that no key stands twice in one of the maps.
#[verifier::external_body]
fn read_yaml_tables(text: &str) -> (r: Option<Tables>)
    ensures
        r.deep_view() == yaml_tables(text@),
        r.deep_view() matches Some(tables) ==> names_unique(tables),
{
    serde_yaml::from_str::<
        std::collections::BTreeMap<String, std::collections::BTreeMap<String, String>>,
    >(text).ok().map(|m| m.into_iter().map(|(k, t)| (k, t.into_iter().collect())).collect())
}

/// Calls `deser_hjson::from_str` for a map of `serde_json`. The contract claims
/// that the outcome is a function of the text: `hjson_document` names it. The
/// text is one that the reader can take; on others it cuts a character in two
/// and panics. And the text is not nested too deep: the reader calls itself
/// for every list and table inside another, without a limit, and would use up
/// the stack.
#[verifier::external_body]
fn read_hjson(text: &str) -> (r: Option<serde_json::Map<String, serde_json::Value>>)
    requires
        hjson_takes(encode_utf8(text@)),
        hjson_nests(encode_utf8(text@)),
    ensures
        match r {
            Some(m) => hjson_document(text@) == Some(map_document(m)),
            None => hjson_document(text@) is None,
        },
{
    deser_hjson::from_str::<serde_json::Map<String, serde_json::Value>>(text).ok()
}

/// Calls `serde_yaml::from_str` for a map of `serde_json`. The contract claims
/// that the outcome is a function of the text: `yaml_document` names it.
#[verifier::external_body]
fn read_yaml(text: &str) -> (r: Option<serde_json::Map<String, serde_json::Value>>)
    ensures
        match r {
            Some(m) => yaml_document(text@) == Some(map_document(m)),
            None => yaml_document(text@) is None,
        },
{
    serde_yaml::from_str::<serde_json::Map<String, serde_json::Value>>(text).ok()
}

/// Calls `toml::from_str` for a map of `serde_json`. The contract claims that
/// the outcome is a function of the text: `toml_document` names it. The text
/// is not nested too deep: the reader calls itself for every list and table
/// inside another and for every part of a dotted key, without a limit, and
/// would use up the stack.
#[verifier::external_body]
fn read_toml(text: &str) -> (r: Option<serde_json::Map<String, serde_json::Value>>)
    requires
        toml_nests(encode_utf8(text@)),
    ensures
        match r {
            Some(m) => toml_document(text@) == Some(map_document(m)),
            None => toml_document(text@) is None,
        },
{
    toml::from_str::<serde_json::Map<String, serde_json::Value>>(text).ok()
}

/// Calls `serde_json::from_str` for a map of `serde_json`. The contract claims
/// that the outcome is a function of the text: `json_document` names it.
#[verifier::external_body]
fn read_json(text: &str) -> (r: Result<
    serde_json::Map<String, serde_json::Value>,
    serde_json::Error,
>)
    ensures
        match r {
            Ok(m) => json_document(text@) == Some(map_document(m)),
            Err(_) => json_document(text@) is None,
        },
{
    serde_json::from_str::<serde_json::Map<String, serde_json::Value>>(text)
}

/// Hands out what a map of `serde_json` holds, by `Map::into_iter`: the keys in
/// the order of the map; with a key its table, where its value is an object;
/// in a table with a key its text, where its value is a string. The contract
/// claims that this is `map_document`, and that no key stands twice in one of
/// the maps.
#[verifier::external_body]
fn document_of(m: serde_json::Map<String, serde_json::Value>) -> (d: Document)
    ensures
        d.deep_view() == map_document(m),
        tables_unique(d.deep_view()),
{
    m.into_iter().map(|(key, value)| (key, match value {
        serde_json::Value::Object(t) => Some(t.into_iter().map(|(k, v)| (k, match v {
            serde_json::Value::String(s) => Some(s),
            _ => None,
        })).collect()),
        _ => None,
    })).collect()
}

/// Why a document is no manifest.
#[derive(Debug, Clone, Copy, PartialEq, Eq)]
pub enum ShapeError {
    /// The document has both a key `packages` and a key `dependencies`.
    BothKeys,
    /// What stands under the key is not a table.
    NotATable,
    /// A version in the table is not a text.
    NotText,
}

/// The mapping that a manifest declares: names with their versions, in the
/// order in which they were read.
#[derive(Debug, PartialEq, Eq)]
pub struct ConfigWrapper {
    pub packages: Vec<(String, String)>,
}

impl ConfigWrapper {
    /// The entries are those of a mapping: no name stands twice.
    pub open spec fn well_formed(&self) -> bool {
        unique_names(self@)
    }
}

impl Default for ConfigWrapper {
    /// The mapping without entries.
    fn default() -> (w: Self)
        ensures
            w@ == Seq::<Key>::empty(),
            w.well_formed(),
    {
        let w = ConfigWrapper { packages: Vec::new() };
        assert(w@ =~= Seq::<Key>::empty());
        w
    }
}

impl View for ConfigWrapper {
    type V = Seq<Key>;

    open spec fn view(&self) -> Seq<Key> {
        self.packages.deep_view()
    }
}

/// The view of a mapping that may be missing.
pub open spec fn view_of(w: Option<ConfigWrapper>) -> Option<Seq<Key>> {
    match w {
        Some(w) => Some(w@),
        None => None,
    }
}

/// The index of the first entry of `doc` at or behind `i` that has the key
/// `key`.
pub open spec fn index_of_from(doc: DocumentView, key: Seq<char>, i: int) -> Option<int>
    decreases doc.len() - i,
{
    if i >= doc.len() {
        None
    } else if doc[i].0 == key {
        Some(i)
    } else {
        index_of_from(doc, key, i + 1)
    }
}

/// What stands under the key `key` in `doc`, at its first entry with that key.
pub open spec fn lookup(doc: DocumentView, key: Seq<char>) -> Option<Option<TableView>> {
    match index_of_from(doc, key, 0) {
        Some(i) => Some(doc[i].1),
        None => None,
    }
}

/// Every value of the table is a text.
pub open spec fn all_text(table: TableView) -> bool {
    forall|i: int| 0 <= i < table.len() ==> (#[trigger] table[i]).1 is Some
}

/// The entries of a table whose values are all texts.
pub open spec fn texts(table: TableView) -> Seq<Key> {
    Seq::new(table.len(), |i: int| (table[i].0, table[i].1.unwrap()))
}

/// The mapping that the value under the manifest's key declares.
pub open spec fn table_mapping(value: Option<TableView>) -> Result<Seq<Key>, ShapeError> {
    match value {
        None => Err(ShapeError::NotATable),
        Some(table) => if all_text(table) {
            Ok(texts(table))
        } else {
            Err(ShapeError::NotText)
        },
    }
}

/// The mapping that a document declares. It stands under the key `packages` or
/// under the key `dependencies`; a document with neither declares nothing, and
/// one with both is refused.
pub open spec fn document_mapping(doc: DocumentView) -> Result<Seq<Key>, ShapeError> {
    match (lookup(doc, "packages"@), lookup(doc, "dependencies"@)) {
        (None, None) => Ok(Seq::empty()),
        (Some(value), None) => table_mapping(value),
        (None, Some(value)) => table_mapping(value),
        (Some(_), Some(_)) => Err(ShapeError::BothKeys),
    }
}

/// The mapping of the document that a reader made of a text, where it made one
/// and the document is a manifest.
pub open spec fn accepted(doc: Option<DocumentView>) -> Option<Seq<Key>> {
    match doc {
        Some(d) => match document_mapping(d) {
            Ok(mapping) => Some(mapping),
            Err(_) => None,
        },
        None => None,
    }
}

/// Tables of texts as a document: every value a table, and in a table every
/// value a text.
pub open spec fn lifted(tables: TablesView) -> DocumentView {
    Seq::new(
        tables.len(),
        |i: int|
            (
                tables[i].0,
                Some(
                    Seq::new(
                        tables[i].1.len(),
                        |j: int| (tables[i].1[j].0, Some(tables[i].1[j].1)),
                    ),
                ),
            ),
    )
}

/// The document of tables of texts that a reader made of a text, where it
/// made one.
pub open spec fn lifted_of(tables: Option<TablesView>) -> Option<DocumentView> {
    match tables {
        Some(t) => Some(lifted(t)),
        None => None,
    }
}

/// The first of two mappings that is there.
pub open spec fn or_else(first: Option<Seq<Key>>, second: Option<Seq<Key>>) -> Option<Seq<Key>> {
    if first is Some {
        first
    } else {
        second
    }
}

/// The mapping that a text declares as Hjson. The reader is asked for tables
/// of texts first: so a version may stand without quotes where it looks like a
/// number. Then it is asked for any document, unless the text is nested too
/// deep for it. It is not asked at all for a text that it cannot take.
pub open spec fn hjson_mapping(text: Seq<char>) -> Option<Seq<Key>> {
    if hjson_takes(encode_utf8(text)) {
        or_else(
            accepted(lifted_of(hjson_tables(text))),
            if hjson_nests(encode_utf8(text)) {
                accepted(hjson_document(text))
            } else {
                None
            },
        )
    } else {
        None
    }
}

/// The mapping that a text declares as YAML: the reader is asked for tables of
/// texts first, then for any document.
pub open spec fn yaml_mapping(text: Seq<char>) -> Option<Seq<Key>> {
    or_else(accepted(lifted_of(yaml_tables(text))), accepted(yaml_document(text)))
}

/// The mapping that a text declares as TOML. The reader is not asked for a
/// text that is nested too deep for it.
pub open spec fn toml_mapping(text: Seq<char>) -> Option<Seq<Key>> {
    if toml_nests(encode_utf8(text)) {
        accepted(toml_document(text))
    } else {
        None
    }
}

/// The mapping that a manifest text declares: that of the first of Hjson, YAML
/// and TOML, in this order, in which the text declares one.
pub open spec fn manifest_mapping(text: Seq<char>) -> Option<Seq<Key>> {
    or_else(hjson_mapping(text), or_else(yaml_mapping(text), toml_mapping(text)))
}

/// A document in whose tables no key stands twice declares a mapping in which
/// no name stands twice.
pub proof fn lemma_mapping_of_unique_tables(doc: DocumentView)
    requires
        tables_unique(doc),
        document_mapping(doc) is Ok,
    ensures
        unique_names(document_mapping(doc).unwrap()),
{
    lemma_index_of_from(doc, "packages"@, 0);
    lemma_index_of_from(doc, "dependencies"@, 0);
}

proof fn lemma_index_of_from(doc: DocumentView, key: Seq<char>, i: int)
    requires
        0 <= i,
    ensures
        index_of_from(doc, key, i) matches Some(at) ==> i <= at < doc.len(),
    decreases doc.len() - i,
{
    if i < doc.len() && doc[i].0 != key {
        lemma_index_of_from(doc, key, i + 1);
    }
}

/// Tables of texts in which no name stands twice are a document in whose
/// tables no key stands twice.
pub proof fn lemma_lifted_unique(tables: TablesView)
    requires
        names_unique(tables),
    ensures
        tables_unique(lifted(tables)),
{
    let doc = lifted(tables);
    assert forall|i: int| 0 <= i < doc.len() implies ((#[trigger] doc[i]).1 matches Some(table)
        ==> unique_keys(table)) by {
        assert(unique_names(tables[i].1));
    }
}

/// Whether the Hjson reader can take the text.
pub fn hjson_can_take(text: &str) -> (r: bool)
    ensures
        r == hjson_takes(encode_utf8(text@)),
{
    let bytes = text.as_bytes();
    let n = bytes.len();
    let mut p: usize = 0;
    while p < n
        invariant
            bytes@ == encode_utf8(text@),
            n == bytes@.len(),
            p <= n,
            forall|q: int|
                0 <= q < p ==> {
                    &&& (#[trigger] bytes@[q]) == 0x27 && q + 3 <= n ==> is_char_boundary(
                        bytes@,
                        q + 3,
                    )
                    &&& bytes@[q] == 0x5c && q + 6 <= n && bytes@[q + 1] == 0x75
                        ==> is_char_boundary(bytes@, q + 6)
                },
        decreases n - p,
    {
        let b = bytes[p];
        if b == 0x27 && n - p >= 3 && !text.is_char_boundary(p + 3) {
            return false;
        }
        if b == 0x5c && n - p >= 6 && bytes[p + 1] == 0x75 && !text.is_char_boundary(p + 6) {
            return false;
        }
        p = p + 1;
    }
    true
}

/// How many `[` and `{` the text has, and the most `.` that it has in a line.
fn count_nesting(text: &str) -> (r: (usize, usize))
    ensures
        r.0 == openers(encode_utf8(text@), encode_utf8(text@).len() as int),
        r.1 == most_dots(encode_utf8(text@), encode_utf8(text@).len() as int),
{
    let bytes = text.as_bytes();
    let n = bytes.len();
    let mut opened: usize = 0;
    let mut dots: usize = 0;
    let mut most: usize = 0;
    let mut p: usize = 0;
    while p < n
        invariant
            bytes@ == encode_utf8(text@),
            n == bytes@.len(),
            p <= n,
            opened == openers(bytes@, p as int),
            dots == dots_in_line(bytes@, p as int),
            most == most_dots(bytes@, p as int),
            opened <= p,
            dots <= p,
            most <= p,
        decreases n - p,
    {
        let b = bytes[p];
        if b == 0x5b || b == 0x7b {
            opened = opened + 1;
        }
        if b == 0x0a {
            dots = 0;
        } else if b == 0x2e {
            dots = dots + 1;
        }
        if dots > most {
            most = dots;
        }
        p = p + 1;
    }
    (opened, most)
}

/// Whether the text is not nested too deep for the Hjson reader.
pub fn hjson_can_nest(text: &str) -> (r: bool)
    ensures
        r == hjson_nests(encode_utf8(text@)),
{
    let (opened, _) = count_nesting(text);
    opened <= NESTING_LIMIT
}

/// Whether the text is not nested too deep for the TOML reader.
pub fn toml_can_nest(text: &str) -> (r: bool)
    ensures
        r == toml_nests(encode_utf8(text@)),
{
    let (opened, most) = count_nesting(text);
    if opened > NESTING_LIMIT || most > NESTING_LIMIT {
        assert((opened + 2) * (most + 2) > NESTING_LIMIT) by (nonlinear_arith)
            requires
                opened >= 0,
                most >= 0,
                opened > NESTING_LIMIT || most > NESTING_LIMIT,
                NESTING_LIMIT == 128,
        ;
        return false;
    }
    assert((opened + 2) * (most + 2) <= 130 * 130) by (nonlinear_arith)
        requires
            0 <= opened <= 128,
            0 <= most <= 128,
    ;
    (opened + 2) * (most + 2) <= NESTING_LIMIT
}

/// Where the first entry of `doc` with the key `key` stands.
fn index_of(doc: &Document, key: &str) -> (r: Option<usize>)
    ensures
        match r {
            Some(i) => index_of_from(doc.deep_view(), key@, 0) == Some(i as int) && i < doc.len(),
            None => index_of_from(doc.deep_view(), key@, 0) is None,
        },
{
    let mut i: usize = 0;
    while i < doc.len()
        invariant
            i <= doc.len(),
            index_of_from(doc.deep_view(), key@, 0) == index_of_from(
                doc.deep_view(),
                key@,
                i as int,
            ),
        decreases doc.len() - i,
    {
        if same_text(doc[i].0.as_str(), key) {
            return Some(i);
        }
        i = i + 1;
    }
    None
}

/// The entries of a table, where every value is a text.
fn entries_of(table: &Table) -> (r: Option<Vec<(String, String)>>)
    ensures
        match r {
            Some(entries) => all_text(table.deep_view()) && entries.deep_view() == texts(
                table.deep_view(),
            ),
            None => !all_text(table.deep_view()),
        },
{
    let mut entries: Vec<(String, String)> = Vec::new();
    let mut i: usize = 0;
    while i < table.len()
        invariant
            i <= table.len(),
            entries.len() == i,
            forall|j: int| 0 <= j < i ==> (#[trigger] table@[j]).1 is Some,
            forall|j: int|
                0 <= j < i ==> (#[trigger] entries@[j]).0@ == table@[j].0@ && entries@[j].1@
                    == table@[j].1.unwrap()@,
        decreases table.len() - i,
    {
        match &table[i].1 {
            Some(text) => {
                entries.push((table[i].0.clone(), text.clone()));
            },
            None => {
                assert(table.deep_view()[i as int].1 is None);
                return None;
            },
        }
        i = i + 1;
    }
    proof {
        assert forall|j: int| 0 <= j < table.deep_view().len() implies (
        #[trigger] table.deep_view()[j]).1 is Some by {
            assert(table@[j].1 is Some);
        }
        assert(entries.deep_view() =~= texts(table.deep_view()));
    }
    Some(entries)
}

/// The mapping that the value under the manifest's key declares.
fn mapping_of_value(value: &Option<Table>) -> (r: Result<ConfigWrapper, ShapeError>)
    ensures
        match r {
            Ok(w) => table_mapping(value.deep_view()) == Ok::<Seq<Key>, ShapeError>(w@),
            Err(e) => table_mapping(value.deep_view()) == Err::<Seq<Key>, ShapeError>(e),
        },
{
    match value {
        None => Err(ShapeError::NotATable),
        Some(table) => match entries_of(table) {
            Some(packages) => Ok(ConfigWrapper { packages }),
            None => Err(ShapeError::NotText),
        },
    }
}

/// The mapping that a document declares, or why it is no manifest.
pub fn mapping_of(doc: &Document) -> (r: Result<ConfigWrapper, ShapeError>)
    ensures
        match r {
            Ok(w) => document_mapping(doc.deep_view()) == Ok::<Seq<Key>, ShapeError>(w@),
            Err(e) => document_mapping(doc.deep_view()) == Err::<Seq<Key>, ShapeError>(e),
        },
{
    let packages = index_of(doc, "packages");
    let dependencies = index_of(doc, "dependencies");
    match (packages, dependencies) {
        (None, None) => {
            let w = ConfigWrapper { packages: Vec::new() };
            assert(w@ =~= Seq::<Key>::empty());
            Ok(w)
        },
        (Some(i), None) => mapping_of_value(&doc[i].1),
        (None, Some(i)) => mapping_of_value(&doc[i].1),
        (Some(_), Some(_)) => Err(ShapeError::BothKeys),
    }
}

/// Tables of texts as a document.
pub fn document_of_tables(tables: Tables) -> (doc: Document)
    ensures
        doc.deep_view() == lifted(tables.deep_view()),
{
    let mut doc: Document = Vec::new();
    let mut i: usize = 0;
    while i < tables.len()
        invariant
            i <= tables.len(),
            doc.len() == i,
            forall|k: int|
                0 <= k < i ==> (#[trigger] doc@[k]).deep_view() == lifted(tables.deep_view())[k],
        decreases tables.len() - i,
    {
        let entries = &tables[i].1;
        let mut table: Table = Vec::new();
        let mut j: usize = 0;
        while j < entries.len()
            invariant
                j <= entries.len(),
                table.len() == j,
                forall|k: int|
                    0 <= k < j ==> (#[trigger] table@[k]).deep_view() == (
                        entries@[k].0@,
                        Some(entries@[k].1@),
                    ),
            decreases entries.len() - j,
        {
            table.push((entries[j].0.clone(), Some(entries[j].1.clone())));
            j = j + 1;
        }
        assert(table.deep_view() =~= lifted(tables.deep_view())[i as int].1.unwrap());
        doc.push((tables[i].0.clone(), Some(table)));
        i = i + 1;
    }
    assert(doc.deep_view() =~= lifted(tables.deep_view()));
    doc
}

/// What a reader made of a text when asked for tables of texts, as a mapping:
/// `None` where it made nothing or what it made is no manifest.
fn accept_tables(read: Option<Tables>) -> (r: Option<ConfigWrapper>)
    requires
        read.deep_view() matches Some(tables) ==> names_unique(tables),
    ensures
        view_of(r) == accepted(lifted_of(read.deep_view())),
        r matches Some(w) ==> w.well_formed(),
{
    match read {
        Some(tables) => {
            proof {
                lemma_lifted_unique(tables.deep_view());
                if document_mapping(lifted(tables.deep_view())) is Ok {
                    lemma_mapping_of_unique_tables(lifted(tables.deep_view()));
                }
            }
            let doc = document_of_tables(tables);
            match mapping_of(&doc) {
                Ok(w) => Some(w),
                Err(_) => None,
            }
        },
        None => None,
    }
}

/// What a reader made of a text, as a mapping: `None` where it made nothing or
/// its document is no manifest.
fn accept(read: Option<serde_json::Map<String, serde_json::Value>>) -> (r: Option<ConfigWrapper>)
    ensures
        match read {
            Some(m) => view_of(r) == accepted(Some(map_document(m))),
            None => r is None,
        },
        r matches Some(w) ==> w.well_formed(),
{
    match read {
        Some(m) => {
            let doc = document_of(m);
            proof {
                if document_mapping(doc.deep_view()) is Ok {
                    lemma_mapping_of_unique_tables(doc.deep_view());
                }
            }
            match mapping_of(&doc) {
                Ok(w) => Some(w),
                Err(_) => None,
            }
        },
        None => None,
    }
}

impl ConfigWrapper {
    /// Reads the mapping that a manifest text declares. The text is tried as
    /// Hjson, then as YAML, then as TOML; the first in which it declares a
    /// mapping decides.
    pub fn read(text: &str) -> (r: Option<ConfigWrapper>)
        ensures
            view_of(r) == manifest_mapping(text@),
            r matches Some(w) ==> w.well_formed(),
    {
        if hjson_can_take(text) {
            let tables = accept_tables(read_hjson_tables(text));
            if tables.is_some() {
                return tables;
            }
            if hjson_can_nest(text) {
                let hjson = accept(read_hjson(text));
                if hjson.is_some() {
                    return hjson;
                }
            }
        }
        let tables = accept_tables(read_yaml_tables(text));
        if tables.is_some() {
            return tables;
        }
        let yaml = accept(read_yaml(text));
        if yaml.is_some() {
            return yaml;
        }
        if toml_can_nest(text) {
            accept(read_toml(text))
        } else {
            None
        }
    }

    /// Reads the mapping that a JSON text declares.
    pub fn read_json(text: &str) -> (r: Result<ConfigWrapper, LoadError>)
        ensures
            match r {
                Ok(w) => json_document(text@) matches Some(doc) && document_mapping(doc) == Ok::<
                    Seq<Key>,
                    ShapeError,
                >(w@) && w.well_formed(),
                Err(LoadError::Json(_)) => json_document(text@) is None,
                Err(LoadError::Shape(e)) => json_document(text@) matches Some(doc)
                    && document_mapping(doc) == Err::<Seq<Key>, ShapeError>(e),
            },
    {
        match read_json(text) {
            Ok(m) => {
                let doc = document_of(m);
                proof {
                    if document_mapping(doc.deep_view()) is Ok {
                        lemma_mapping_of_unique_tables(doc.deep_view());
                    }
                }
                match mapping_of(&doc) {
                    Ok(w) => Ok(w),
                    Err(e) => Err(LoadError::Shape(e)),
                }
            },
            Err(e) => Err(LoadError::Json(e)),
        }
    }
}

/// Why a JSON text could not be loaded.
#[derive(Debug)]
pub enum LoadError {
    /// The text is no JSON object. This is what the JSON reader said.
    Json(serde_json::Error),
    /// The text is a JSON object, but no manifest.
    Shape(ShapeError),
}

} // verus!

//! The lockfile: one record for every installed package, in pre-order.

use crate::package::{Package, PackageView};
use vstd::prelude::*;

verus! {

/// A record of the lockfile: its fields in order, each a name with a text.
pub type Record = Vec<(String, String)>;

/// The view of a [`Record`].
pub type RecordView = Seq<(Seq<char>, Seq<char>)>;

/// The text that `serde_json::to_string_pretty` makes of an array of objects,
/// one object for every record, with the record's fields as its members.
pub uninterp spec fn pretty_json(records: Seq<Seq<(Seq<char>, Seq<char>)>>) -> Seq<char>;

/// Calls `serde_json::to_string_pretty` on an array of objects, one for every
/// record; the members of an object are the fields of its record, each text a
/// JSON string. The contract claims that the outcome is a function of the
/// records: `pretty_json` names it. And it claims that the call succeeds: the
/// writer fails only where a value refuses to be written or a map has a key
/// that is no string, and here the values are JSON values and the keys are
/// strings.
#[verifier::external_body]
pub(crate) fn pretty(records: &Vec<Record>) -> (r: Result<String, serde_json::Error>)
    ensures
        r is Ok,
        r matches Ok(text) ==> text@ == pretty_json(records.deep_view()),
{
    let objects: Vec<serde_json::Value> = records.iter().map(|record| serde_json::Value::Object(
        record.iter().map(|(k, v)| (k.clone(), serde_json::Value::String(v.clone()))).collect(),
    )).collect();
    serde_json::to_string_pretty(&objects)
}

/// Why no lockfile could be made.
#[derive(Debug)]
pub enum LockError {
    /// The integrity of an installed package could not be computed. This is the
    /// package, as `name@version`.
    Integrity(String),
}

/// The installed packages of a sequence, in the order of the sequence.
pub open spec fn installed_of(nodes: Seq<PackageView>) -> Seq<PackageView>
    decreases nodes.len(),
{
    if nodes.len() == 0 {
        Seq::empty()
    } else if nodes.last().installed {
        installed_of(nodes.drop_last()).push(nodes.last())
    } else {
        installed_of(nodes.drop_last())
    }
}

/// The view of a text that may be missing.
pub open spec fn text_of(s: Option<String>) -> Option<Seq<char>> {
    match s {
        Some(s) => Some(s@),
        None => None,
    }
}

/// `f`, asked for the integrity of the package `node`, may answer `answer`.
pub open spec fn computes<F: Fn(&Package) -> Option<String>>(
    f: F,
    node: PackageView,
    answer: Option<Seq<char>>,
) -> bool {
    exists|p: Package, r: Option<String>|
        p@ == node && text_of(r) == answer && #[trigger] call_ensures(f, (&p,), r)
}

/// `integrity` is an integrity of the package `node`: its own where it has
/// one, else one that `f` computes for it.
pub open spec fn completes<F: Fn(&Package) -> Option<String>>(
    f: F,
    node: PackageView,
    integrity: Seq<char>,
) -> bool {
    if node.integrity.len() > 0 {
        integrity == node.integrity
    } else {
        computes(f, node, Some(integrity))
    }
}

/// `filled` holds an integrity for every package of `nodes`.
pub open spec fn fills<F: Fn(&Package) -> Option<String>>(
    f: F,
    nodes: Seq<PackageView>,
    filled: Seq<Seq<char>>,
) -> bool {
    &&& filled.len() == nodes.len()
    &&& forall|i: int| 0 <= i < nodes.len() ==> completes(f, nodes[i], #[trigger] filled[i])
}

/// The record of a package: its name, its version and an integrity.
pub open spec fn record_of(node: PackageView, integrity: Seq<char>) -> RecordView {
    seq![("name"@, node.name), ("version"@, node.version), ("integrity"@, integrity)]
}

/// The records of the packages `nodes` with the integrities `filled`.
pub open spec fn records_of(nodes: Seq<PackageView>, filled: Seq<Seq<char>>) -> Seq<RecordView> {
    Seq::new(nodes.len(), |i: int| record_of(nodes[i], filled[i]))
}

/// The installed packages of the first `i` nodes are the first of all the
/// installed packages, and the node `i`, where it is installed, comes next.
pub proof fn lemma_installed_prefix(nodes: Seq<PackageView>, i: int)
    requires
        0 <= i <= nodes.len(),
    ensures
        installed_of(nodes.take(i)).len() <= installed_of(nodes).len(),
        installed_of(nodes.take(i)) == installed_of(nodes).take(
            installed_of(nodes.take(i)).len() as int,
        ),
        i < nodes.len() && nodes[i].installed ==> installed_of(nodes.take(i)).len()
            < installed_of(nodes).len() && installed_of(nodes)[installed_of(
            nodes.take(i),
        ).len() as int] == nodes[i],
    decreases nodes.len(),
{
    if i == nodes.len() {
        assert(nodes.take(i) =~= nodes);
        assert(installed_of(nodes).take(installed_of(nodes).len() as int) =~= installed_of(nodes));
    } else {
        let init = nodes.drop_last();
        assert(init.take(i) =~= nodes.take(i));
        lemma_installed_prefix(init, i);
        let k = installed_of(nodes.take(i)).len() as int;
        if nodes.last().installed {
            assert(installed_of(nodes).take(k) =~= installed_of(init).take(k));
            if i == init.len() {
                assert(init.take(i) =~= init);
            }
        }
    }
}

/// The record of a package with an integrity.
pub fn record(p: &Package, integrity: String) -> (r: Record)
    ensures
        r.deep_view() == record_of(p@, integrity@),
{
    let mut r: Record = Vec::new();
    r.push((String::from_str("name"), p.name.clone()));
    r.push((String::from_str("version"), p.version.clone()));
    r.push((String::from_str("integrity"), integrity));
    assert(r.deep_view() =~= record_of(p@, integrity@));
    r
}

} // verus!

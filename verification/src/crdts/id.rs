//! Identifiers of log entries and of the list elements they create.

use vstd::prelude::*;

verus! {

/// Identifies one log entry: the alias its author declared for its peer, the
/// index of the entry in that peer's log, and a four-byte hash prefix.
#[derive(Debug, Clone, Copy, PartialEq, Eq, Structural)]
pub struct EntryId {
    pub peer_alias: u64,
    pub entry_index: u64,
    pub hash: u32,
}

/// Identifies one element created by an entry: the entry and the position of
/// the element among those the entry created.
#[derive(Debug, Clone, Copy, PartialEq, Eq, Structural)]
pub struct ElementId {
    pub op_id: EntryId,
    pub index: u64,
}

/// The strict order on entry ids: by peer alias, then entry index, then hash.
pub open spec fn entry_id_lt(a: EntryId, b: EntryId) -> bool {
    ||| a.peer_alias < b.peer_alias
    ||| a.peer_alias == b.peer_alias && a.entry_index < b.entry_index
    ||| a.peer_alias == b.peer_alias && a.entry_index == b.entry_index && a.hash < b.hash
}

/// The strict order on element ids: by entry id, then by index.
pub open spec fn element_id_lt(a: ElementId, b: ElementId) -> bool {
    ||| entry_id_lt(a.op_id, b.op_id)
    ||| a.op_id == b.op_id && a.index < b.index
}

/// Whether `a` orders strictly before `b`.
pub fn element_id_less(a: &ElementId, b: &ElementId) -> (r: bool)
    ensures
        r == element_id_lt(*a, *b),
{
    if a.op_id.peer_alias != b.op_id.peer_alias {
        return a.op_id.peer_alias < b.op_id.peer_alias;
    }
    if a.op_id.entry_index != b.op_id.entry_index {
        return a.op_id.entry_index < b.op_id.entry_index;
    }
    if a.op_id.hash != b.op_id.hash {
        return a.op_id.hash < b.op_id.hash;
    }
    a.index < b.index
}

/// The strict order on element ids is a strict total order.
pub proof fn lemma_element_id_order(a: ElementId, b: ElementId, c: ElementId)
    ensures
        !element_id_lt(a, a),
        element_id_lt(a, b) ==> !element_id_lt(b, a),
        element_id_lt(a, b) && element_id_lt(b, c) ==> element_id_lt(a, c),
        a == b || element_id_lt(a, b) || element_id_lt(b, a),
{
}

} // verus!

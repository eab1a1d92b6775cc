//! Node references.
//!
//! A node is known by the name of the file that holds it. The root has a fixed
//! name; every other node has the name it was given when it was created.

use vstd::prelude::*;

verus! {

/// The name of a node's backing file, relative to the tree's directory.
pub type NodeRef = String;

/// The view of the root's name.
pub open spec fn root_name() -> Seq<char> {
    "root"@
}

/// The views of a sequence of names.
pub open spec fn names_of(refs: Seq<NodeRef>) -> Seq<Seq<char>> {
    refs.map_values(|r: NodeRef| r@)
}

/// The name of the root node.
pub fn root_ref() -> (r: NodeRef)
    ensures
        r@ == root_name(),
{
    String::from_str("root")
}

/// The number of characters in the name of a node that is not the root.
pub const FRESH_NAME_LEN: usize = 36;

/// Draws the name for a new node.
///
/// The body formats `uuid::Uuid::new_v4()` with `to_string`. That call
/// writes a version 4 UUID in its hyphenated form, which is 36 ASCII
/// characters long whatever the random bits are; the contract claims this
/// length and nothing else. The UUID crate panics where the operating system
/// yields no random bytes.
#[verifier::external_body]
pub(crate) fn draw_name() -> (r: NodeRef)
    ensures
        r@.len() == FRESH_NAME_LEN,
{
    uuid::Uuid::new_v4().to_string()
}

/// The root's name is four characters long, so no drawn name equals it.
pub proof fn lemma_root_name_len()
    ensures
        root_name().len() == 4,
        forall|name: Seq<char>| name.len() == FRESH_NAME_LEN ==> name != root_name(),
{
    reveal_strlit("root");
}

} // verus!

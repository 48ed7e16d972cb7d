//! The tree as text: a fork as `[K: key, V: value, L: left, R: right]`,
//! an empty subtree as `Ø`.
//!
//! How a key or a value reads as text is up to its `Display`; the contracts
//! here say how those texts are put together.

use crate::tree::Tree;
use std::fmt::Display;
use vstd::prelude::*;
use vstd::string::{to_string_from_display_ensures, StringExecFns};

verus! {

/// The text of an empty subtree.
pub open spec fn empty_text() -> Seq<char> {
    "Ø"@
}

/// The text of a fork, given the texts of its key, its value and its two
/// subtrees.
pub open spec fn fork_text(
    key: Seq<char>,
    value: Seq<char>,
    left: Seq<char>,
    right: Seq<char>,
) -> Seq<char> {
    "[K: "@ + key + ", V: "@ + value + ", L: "@ + left + ", R: "@ + right + "]"@
}

/// `texts` has the shape of `tree` and holds, at every fork, a text that
/// `Display` gives for the key and one that it gives for the value.
pub open spec fn spelled_by<K: Display, V: Display>(
    tree: Tree<K, V>,
    texts: Tree<String, String>,
) -> bool
    decreases tree,
{
    match (tree, texts) {
        (Tree::Empty, Tree::Empty) => true,
        (
            Tree::Fork { left, key, value, right },
            Tree::Fork { left: left_texts, key: key_text, value: value_text, right: right_texts },
        ) => {
            &&& to_string_from_display_ensures::<K>(&key, key_text)
            &&& to_string_from_display_ensures::<V>(&value, value_text)
            &&& spelled_by(*left, *left_texts)
            &&& spelled_by(*right, *right_texts)
        },
        _ => false,
    }
}

/// The text of a tree whose keys and values are texts already.
pub open spec fn text_of(texts: Tree<String, String>) -> Seq<char>
    decreases texts,
{
    match texts {
        Tree::Empty => empty_text(),
        Tree::Fork { left, key, value, right } => fork_text(
            key@,
            value@,
            text_of(*left),
            text_of(*right),
        ),
    }
}

/// `text` is a text of the tree: each key and each value reads as its
/// `Display` gives it.
pub open spec fn renders<K: Display, V: Display>(tree: Tree<K, V>, text: Seq<char>) -> bool {
    exists|texts: Tree<String, String>| #[trigger] spelled_by(tree, texts) && text == text_of(texts)
}

/// Puts the text of a fork together from the texts of its key, its value
/// and its two subtrees.
pub fn write_fork(key: &str, value: &str, left: &str, right: &str) -> (text: String)
    ensures
        text@ == fork_text(key@, value@, left@, right@),
{
    let mut text = String::from_str("[K: ");
    text.append(key);
    text.append(", V: ");
    text.append(value);
    text.append(", L: ");
    text.append(left);
    text.append(", R: ");
    text.append(right);
    text.append("]");
    text
}

/// The text of an empty subtree.
pub fn write_empty() -> (text: String)
    ensures
        text@ == empty_text(),
{
    String::from_str("Ø")
}

} // verus!

//! An in-memory index of rules keyed by itemsets (finite sets of integer item
//! identifiers, kept as strictly ascending sequences). A trie shares common
//! antecedent prefixes; a query returns the identifier of every stored rule
//! whose antecedent is a sub-itemset of the query.

mod laws;
mod node;
mod tree;

pub use laws::lemma_count_concat;
pub use laws::lemma_match_complete;
pub use laws::lemma_match_count;
pub use laws::lemma_match_determined;
pub use laws::lemma_match_sound;
pub use laws::matched_count;
pub use node::count_in;
pub use node::nondecreasing;
pub use node::strictly_ascending;
pub use node::within;
pub use node::Node;
pub use tree::is_sorted;
pub use tree::RuleMatches;
pub use tree::RuleTree;

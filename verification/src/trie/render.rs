//! Writing a trie out as text.

use vstd::prelude::*;
use vstd::string::StringExecFns;

use crate::trie::PathMatchNode;

verus! {

impl PathMatchNode {
    /// How many edges leave this node.
    pub closed spec fn edge_count(&self) -> nat {
        self.literals@.len() + self.starts_ends_with@.len()
    }

    /// The text for the first `count` edges, literal edges first: the
    /// edges are set apart by `|`; each is the text of its key, a `$` if a
    /// pattern ends behind it, and, if the trie goes on behind it, a `/`
    /// and the text of the trie there.
    pub closed spec fn rendered_edges(&self, count: nat) -> Seq<char>
        decreases self, count,
    {
        if count == 0 || count > self.edge_count() {
            seq![]
        } else {
            let bar = if count > 1 {
                seq!['|']
            } else {
                seq![]
            };
            let i = count - 1;
            if i < self.literals@.len() {
                self.rendered_edges(i as nat) + bar + self.literals@[i].0@.text()
                    + self.literals@[i].1.rendered_behind()
            } else {
                let k = i - self.literals@.len();
                self.rendered_edges(i as nat) + bar + self.starts_ends_with@[k].0@.text()
                    + self.starts_ends_with@[k].1.rendered_behind()
            }
        }
    }

    /// What is written behind the key of the edge that leads to this node.
    pub closed spec fn rendered_behind(&self) -> Seq<char>
        decreases self, self.edge_count() + 2,
    {
        let end = if self.can_end {
            seq!['$']
        } else {
            seq![]
        };
        if self.edge_count() > 0 {
            end + seq!['/'] + self.rendering()
        } else {
            end
        }
    }

    /// The text of the trie below this node: its edges, in brackets when
    /// there are several.
    pub closed spec fn rendering(&self) -> Seq<char>
        decreases self, self.edge_count() + 1,
    {
        let body = self.rendered_edges(self.edge_count());
        if self.edge_count() > 1 {
            seq!['('] + body + seq![')']
        } else {
            body
        }
    }

    /// Writes the trie below this node out, in the way of a regular
    /// expression.
    pub fn to_text(&self) -> (text: String)
        ensures
            text@ == self.rendering(),
        decreases self,
    {
        proof {
            reveal_strlit("(");
            reveal_strlit(")");
        }
        let mut output = String::new();
        let many = self.literals.len() > 1 || self.starts_ends_with.len() > 1 || (
        self.literals.len() == 1 && self.starts_ends_with.len() == 1);
        let mut i: usize = 0;
        while i < self.literals.len()
            invariant
                i <= self.literals@.len(),
                output@ == self.rendered_edges(i as nat),
            decreases self.literals@.len() - i,
        {
            let ghost before = output@;
            proof {
                reveal_strlit("|");
                reveal_strlit("$");
                reveal_strlit("/");
            }
            if i > 0 {
                output.append("|");
            }
            let ghost barred = output@;
            let key = self.literals[i].0.to_text();
            output.append(key.as_str());
            let ghost keyed = output@;
            let child = &self.literals[i].1;
            if child.can_end {
                output.append("$");
            }
            if !child.is_plain() {
                output.append("/");
                let below = child.to_text();
                output.append(below.as_str());
            }
            proof {
                let bar = if i > 0 {
                    seq!['|']
                } else {
                    seq![]
                };
                assert(barred =~= before + bar);
                assert(keyed =~= barred + self.literals@[i as int].0@.text());
                assert(output@ =~= keyed + child.rendered_behind());
                assert(self.rendered_edges((i + 1) as nat) =~= before + bar
                    + self.literals@[i as int].0@.text() + child.rendered_behind());
            }
            i = i + 1;
        }
        let mut k: usize = 0;
        while k < self.starts_ends_with.len()
            invariant
                i == self.literals@.len(),
                k <= self.starts_ends_with@.len(),
                output@ == self.rendered_edges((i + k) as nat),
            decreases self.starts_ends_with@.len() - k,
        {
            let ghost before = output@;
            proof {
                reveal_strlit("|");
                reveal_strlit("$");
                reveal_strlit("/");
            }
            if i > 0 || k > 0 {
                output.append("|");
            }
            let ghost barred = output@;
            let key = self.starts_ends_with[k].0.to_text();
            output.append(key.as_str());
            let ghost keyed = output@;
            let child = &self.starts_ends_with[k].1;
            if child.can_end {
                output.append("$");
            }
            if !child.is_plain() {
                output.append("/");
                let below = child.to_text();
                output.append(below.as_str());
            }
            proof {
                let bar = if i + k > 0 {
                    seq!['|']
                } else {
                    seq![]
                };
                assert(barred =~= before + bar);
                assert(keyed =~= barred + self.starts_ends_with@[k as int].0@.text());
                assert(output@ =~= keyed + child.rendered_behind());
                assert(self.rendered_edges((i + k + 1) as nat) =~= before + bar
                    + self.starts_ends_with@[k as int].0@.text() + child.rendered_behind());
            }
            k = k + 1;
        }
        if many {
            let mut text = String::from_str("(");
            text.append(output.as_str());
            text.append(")");
            assert(text@ =~= self.rendering());
            text
        } else {
            output
        }
    }

    /// Whether no edge leaves this node.
    fn is_plain(&self) -> (plain: bool)
        ensures
            plain == (self.edge_count() == 0),
    {
        self.starts_ends_with.is_empty() && self.literals.is_empty()
    }
}

} // verus!

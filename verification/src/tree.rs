//! The shape of a document as the patch logic sees it.
//!
//! A document is a tree of nodes. Tables and inline tables map keys to child
//! nodes and remember the order in which the keys were added; everything else
//! is a leaf. Formatting (white space, comments, the spelling of a number) is
//! not part of the shape.

use vstd::prelude::*;

verus! {

/// What a value holds, as far as values are told apart here.
pub enum Leaf {
    /// `true` or `false`.
    Boolean(bool),
    /// A 64-bit signed integer.
    Integer(i64),
    /// A 64-bit float, given by its bit pattern.
    Float(u64),
    /// A string.
    Text(Seq<char>),
    /// A date-time or an array.
    Other,
}

/// One node of a document tree.
pub enum Node {
    /// The marker for "no item".
    Absent,
    /// A value that is not an inline table.
    Value(Leaf),
    /// An inline table: a value that holds keyed children.
    Inline { entries: Map<Seq<char>, Node>, order: Seq<Seq<char>> },
    /// A table. `implicit` tables show no header of their own while they are
    /// empty; `dotted` tables are written as `key.sub = value` in their parent.
    Table { entries: Map<Seq<char>, Node>, order: Seq<Seq<char>>, implicit: bool, dotted: bool },
    /// An array of tables, with the tables that it holds.
    Tables(Seq<Node>),
}

/// The four kinds of item that a document is built from.
#[derive(Clone, Copy, Debug, PartialEq, Eq, Structural)]
pub enum ItemKind {
    /// The marker for "no item".
    Absent,
    /// A value: a scalar, an array or an inline table.
    Value,
    /// A table.
    Table,
    /// An array of tables.
    ArrayOfTables,
}

impl Node {
    /// A table without entries.
    pub open spec fn empty_table(implicit: bool, dotted: bool) -> Node {
        Node::Table { entries: Map::empty(), order: Seq::empty(), implicit, dotted }
    }

    /// The kind of item that has this shape.
    pub open spec fn kind(self) -> ItemKind {
        match self {
            Node::Absent => ItemKind::Absent,
            Node::Value(_) => ItemKind::Value,
            Node::Inline { .. } => ItemKind::Value,
            Node::Table { .. } => ItemKind::Table,
            Node::Tables(_) => ItemKind::ArrayOfTables,
        }
    }

    /// Every inline table of the tree holds values only, as the format
    /// asks, whether it stands in a table, in another inline table or in an
    /// array of tables.
    pub open spec fn well_formed(self) -> bool
        decreases self,
    {
        match self {
            Node::Inline { entries, .. } => forall|key: Seq<char>|
                entries.contains_key(key) ==> (#[trigger] entries[key]).is_value()
                    && entries[key].well_formed(),
            Node::Table { entries, .. } => forall|key: Seq<char>|
                entries.contains_key(key) ==> (#[trigger] entries[key]).well_formed(),
            Node::Tables(tables) => forall|i: int|
                0 <= i < tables.len() ==> (#[trigger] tables[i]).well_formed(),
            _ => true,
        }
    }

    /// The node is a value, scalar or inline table.
    pub open spec fn is_value(self) -> bool {
        self is Value || self is Inline
    }

    /// The node can be searched by key.
    pub open spec fn is_table_like(self) -> bool {
        self is Table || self is Inline
    }

    /// The child found under `key`, if the node can be searched and has one.
    /// A table hides children that are `Absent`.
    pub open spec fn child(self, key: Seq<char>) -> Option<Node> {
        match self {
            Node::Table { entries, .. } => if entries.contains_key(key) && !(entries[key] is Absent) {
                Some(entries[key])
            } else {
                None
            },
            Node::Inline { entries, .. } => if entries.contains_key(key) {
                Some(entries[key])
            } else {
                None
            },
            _ => None,
        }
    }

    /// The same node with `sub` in the place of the child under `key`.
    /// The key keeps its position.
    pub open spec fn with_child(self, key: Seq<char>, sub: Node) -> Node {
        match self {
            Node::Table { entries, order, implicit, dotted } => Node::Table {
                entries: entries.insert(key, sub),
                order,
                implicit,
                dotted,
            },
            Node::Inline { entries, order } => Node::Inline { entries: entries.insert(key, sub), order },
            _ => self,
        }
    }

    /// A table after `sub` was inserted under `key`: in place where the key
    /// was there before, at the end where it is new.
    pub open spec fn inserted(self, key: Seq<char>, sub: Node) -> Node {
        match self {
            Node::Table { entries, order, implicit, dotted } => Node::Table {
                entries: entries.insert(key, sub),
                order: if entries.contains_key(key) {
                    order
                } else {
                    order.push(key)
                },
                implicit,
                dotted,
            },
            _ => self,
        }
    }

    /// The keys of a table or inline table; no other node has any.
    pub open spec fn has_key(self, key: Seq<char>) -> bool {
        match self {
            Node::Table { entries, .. } => entries.contains_key(key),
            Node::Inline { entries, .. } => entries.contains_key(key),
            _ => false,
        }
    }

    /// A table or inline table after the entry under `key` was taken out.
    /// The other keys keep their relative order. Where there is no such
    /// entry nothing changes.
    pub open spec fn removed(self, key: Seq<char>) -> Node {
        if !self.has_key(key) {
            self
        } else {
            match self {
                Node::Table { entries, order, implicit, dotted } => Node::Table {
                    entries: entries.remove(key),
                    order: order.filter(|k: Seq<char>| k != key),
                    implicit,
                    dotted,
                },
                Node::Inline { entries, order } => Node::Inline {
                    entries: entries.remove(key),
                    order: order.filter(|k: Seq<char>| k != key),
                },
                _ => self,
            }
        }
    }

    /// A table with its `implicit` flag set to `implicit`.
    pub open spec fn with_implicit(self, implicit: bool) -> Node {
        match self {
            Node::Table { entries, order, implicit: _, dotted } => Node::Table {
                entries,
                order,
                implicit,
                dotted,
            },
            _ => self,
        }
    }

    /// A table with its `dotted` flag set to `dotted`.
    pub open spec fn with_dotted(self, dotted: bool) -> Node {
        match self {
            Node::Table { entries, order, implicit, dotted: _ } => Node::Table {
                entries,
                order,
                implicit,
                dotted,
            },
            _ => self,
        }
    }

    /// The node that `path` leads to from here, one child per segment.
    /// The empty path leads to the node itself.
    pub open spec fn resolve(self, path: Seq<Seq<char>>) -> Option<Node>
        decreases path.len(),
    {
        if path.len() == 0 {
            Some(self)
        } else {
            match self.child(path[0]) {
                Some(sub) => sub.resolve(path.skip(1)),
                None => None,
            }
        }
    }

    /// The tree with `sub` in the place of the node that `path` leads to.
    /// Where the path leads nowhere the tree stays as it is.
    pub open spec fn replaced_at(self, path: Seq<Seq<char>>, sub: Node) -> Node
        decreases path.len(),
    {
        if path.len() == 0 {
            sub
        } else {
            match self.child(path[0]) {
                Some(c) => self.with_child(path[0], c.replaced_at(path.skip(1), sub)),
                None => self,
            }
        }
    }

    /// The table that nested creation goes down into under `key`: the table
    /// that is there, or a new implicit one where there is none.
    pub open spec fn step_table(self, key: Seq<char>) -> Node {
        match self.child(key) {
            Some(sub) => if sub is Table {
                sub
            } else {
                Node::empty_table(true, false)
            },
            None => Node::empty_table(true, false),
        }
    }

    /// The table that nested creation reaches along `parents`.
    pub open spec fn descended(self, parents: Seq<Seq<char>>) -> Node
        decreases parents.len(),
    {
        if parents.len() == 0 {
            self
        } else {
            self.step_table(parents[0]).descended(parents.skip(1))
        }
    }

    /// The tree in which the table that nested creation reaches along
    /// `parents` is `sub`. On the way each segment holds a table afterwards:
    /// the one that was there, or a new implicit one in the place of
    /// whatever else was there, or at the end where nothing was.
    pub open spec fn grafted(self, parents: Seq<Seq<char>>, sub: Node) -> Node
        decreases parents.len(),
    {
        if parents.len() == 0 {
            sub
        } else {
            self.inserted(parents[0], self.step_table(parents[0]).grafted(parents.skip(1), sub))
        }
    }

    /// Nested creation: the tree with `value` under `key` in the table that
    /// `parents` lead to, with the tables on the way made where missing.
    pub open spec fn nested_inserted(self, parents: Seq<Seq<char>>, key: Seq<char>, value: Node) -> Node {
        self.grafted(parents, self.descended(parents).inserted(key, value))
    }

    /// A dotted table that holds `value` under `key` and nothing else.
    pub open spec fn dotted_table(key: Seq<char>, value: Node) -> Node {
        Node::empty_table(false, true).inserted(key, value)
    }

    /// Deletion: the tree without the entry at `path`, taken out of a parent
    /// that is a table or an inline table. Where the parent of the last
    /// segment is missing or cannot be searched by key, nothing changes.
    pub open spec fn deleted(self, path: Seq<Seq<char>>) -> Node {
        match self.resolve(path.drop_last()) {
            Some(parent) => self.replaced_at(path.drop_last(), parent.removed(path.last())),
            None => self,
        }
    }

    /// There is nothing for a deletion at `path` to take out: the parent of
    /// the last segment is missing, or has no such entry.
    pub open spec fn nothing_to_delete(self, path: Seq<Seq<char>>) -> bool {
        match self.resolve(path.drop_last()) {
            Some(parent) => !parent.has_key(path.last()),
            None => true,
        }
    }

    /// The node is a table that shows a header of its own.
    pub open spec fn is_explicit_table(self) -> bool {
        self is Table && !self->Table_implicit
    }

    /// Whether a new value at `path` is attached as a dotted key: the path
    /// has three segments or more, its parent is missing, the "no item"
    /// marker or an array of tables, and its grandparent is an explicit
    /// table.
    pub open spec fn attaches_dotted(self, path: Seq<Seq<char>>) -> bool {
        let parents = path.drop_last();
        &&& path.len() >= 3
        &&& match self.resolve(parents) {
            Some(parent) => parent is Absent || parent is Tables,
            None => true,
        }
        &&& match self.resolve(parents.drop_last()) {
            Some(grandparent) => grandparent.is_explicit_table(),
            None => false,
        }
    }

    /// The tree with `value` at `path`, where nothing is found at `path`.
    pub open spec fn value_created(self, path: Seq<Seq<char>>, value: Node) -> Node {
        let parents = path.drop_last();
        if self.attaches_dotted(path) {
            let grandparents = parents.drop_last();
            self.replaced_at(
                grandparents,
                self.resolve(grandparents).unwrap().inserted(
                    parents.last(),
                    Node::dotted_table(path.last(), value),
                ),
            )
        } else {
            self.nested_inserted(parents, path.last(), value)
        }
    }

    /// Insertion: the tree with `value` at `path`. A value that is there is
    /// overwritten in place; a table or array of tables is taken out first
    /// and the value created as if nothing had been there.
    pub open spec fn value_set(self, path: Seq<Seq<char>>, value: Node) -> Node {
        match self.resolve(path) {
            Some(target) => match target.kind() {
                ItemKind::Value => self.replaced_at(path, value),
                ItemKind::Table => self.deleted(path).value_created(path, value),
                ItemKind::ArrayOfTables => self.deleted(path).value_created(path, value),
                ItemKind::Absent => self,
            },
            None => self.value_created(path, value),
        }
    }

    /// An update at `path` finds nothing to do: a deletion has nothing to
    /// take out, or a value meets the "no item" marker at its path.
    pub open spec fn leaves_alone(self, path: Seq<Seq<char>>, payload: Option<Node>) -> bool {
        match payload {
            Some(_) => self.resolve(path) == Some(Node::Absent),
            None => self.nothing_to_delete(path),
        }
    }

    /// One update: insertion of a value, or deletion where there is none.
    pub open spec fn updated(self, path: Seq<Seq<char>>, payload: Option<Node>) -> Node {
        match payload {
            Some(value) => self.value_set(path, value),
            None => self.deleted(path),
        }
    }
}

/// A payload that can stand anywhere in a tree: nothing, or a value whose
/// inline tables hold values only.
pub open spec fn fits(payload: Option<Node>) -> bool {
    payload is Some ==> payload.unwrap().is_value() && payload.unwrap().well_formed()
}

/// Resolving a path and one more segment is resolving the path and then
/// looking up the segment.
pub proof fn lemma_resolve_push(root: Node, path: Seq<Seq<char>>, key: Seq<char>)
    ensures
        root.resolve(path.push(key)) == match root.resolve(path) {
            Some(node) => node.child(key),
            None => None,
        },
    decreases path.len(),
{
    if path.len() == 0 {
        assert(path.push(key).skip(1) =~= Seq::<Seq<char>>::empty());
        let sub = root.child(key);
        if let Some(s) = sub {
            assert(s.resolve(Seq::<Seq<char>>::empty()) == Some(s));
        }
    } else {
        assert(path.push(key).skip(1) =~= path.skip(1).push(key));
        assert(path.push(key)[0] == path[0]);
        if let Some(c) = root.child(path[0]) {
            lemma_resolve_push(c, path.skip(1), key);
        }
    }
}

/// Replacing below a path and one more segment is replacing the node at the
/// path by itself with the child exchanged.
pub proof fn lemma_replaced_at_push(root: Node, path: Seq<Seq<char>>, key: Seq<char>, sub: Node)
    requires
        root.resolve(path.push(key)) is Some,
    ensures
        root.resolve(path) is Some,
        root.replaced_at(path.push(key), sub) == root.replaced_at(
            path,
            root.resolve(path).unwrap().with_child(key, sub),
        ),
    decreases path.len(),
{
    lemma_resolve_push(root, path, key);
    if path.len() == 0 {
        assert(path.push(key).skip(1) =~= Seq::<Seq<char>>::empty());
        let c = root.child(key).unwrap();
        assert(c.replaced_at(Seq::<Seq<char>>::empty(), sub) == sub);
    } else {
        assert(path.push(key).skip(1) =~= path.skip(1).push(key));
        assert(path.push(key)[0] == path[0]);
        let c = root.child(path[0]).unwrap();
        lemma_replaced_at_push(c, path.skip(1), key, sub);
    }
}

/// Putting back what is there changes nothing.
pub proof fn lemma_replaced_at_same(root: Node, path: Seq<Seq<char>>)
    requires
        root.resolve(path) is Some,
    ensures
        root.replaced_at(path, root.resolve(path).unwrap()) == root,
    decreases path.len(),
{
    if path.len() > 0 {
        let c = root.child(path[0]).unwrap();
        lemma_replaced_at_same(c, path.skip(1));
        lemma_with_child_same(root, path[0]);
    }
}

/// Exchanging a child for itself changes nothing.
pub proof fn lemma_with_child_same(node: Node, key: Seq<char>)
    requires
        node.child(key) is Some,
    ensures
        node.with_child(key, node.child(key).unwrap()) == node,
{
    match node {
        Node::Table { entries, order, implicit, dotted } => {
            assert(entries.insert(key, entries[key]) =~= entries);
        },
        Node::Inline { entries, order } => {
            assert(entries.insert(key, entries[key]) =~= entries);
        },
        _ => {},
    }
}

/// Going down a path and one more segment is going down the path and then
/// one step.
pub proof fn lemma_descended_push(root: Node, parents: Seq<Seq<char>>, key: Seq<char>)
    ensures
        root.descended(parents.push(key)) == root.descended(parents).step_table(key),
    decreases parents.len(),
{
    if parents.len() == 0 {
        assert(parents.push(key).skip(1) =~= Seq::<Seq<char>>::empty());
        assert(root.step_table(key).descended(Seq::<Seq<char>>::empty()) == root.step_table(key));
    } else {
        assert(parents.push(key).skip(1) =~= parents.skip(1).push(key));
        assert(parents.push(key)[0] == parents[0]);
        lemma_descended_push(root.step_table(parents[0]), parents.skip(1), key);
    }
}

/// Grafting below a path and one more segment is grafting at the path the
/// table found there with the next table inserted.
pub proof fn lemma_grafted_push(root: Node, parents: Seq<Seq<char>>, key: Seq<char>, sub: Node)
    ensures
        root.grafted(parents.push(key), sub) == root.grafted(
            parents,
            root.descended(parents).inserted(key, sub),
        ),
    decreases parents.len(),
{
    if parents.len() == 0 {
        assert(parents.push(key).skip(1) =~= Seq::<Seq<char>>::empty());
        assert(root.step_table(key).grafted(Seq::<Seq<char>>::empty(), sub) == sub);
    } else {
        assert(parents.push(key).skip(1) =~= parents.skip(1).push(key));
        assert(parents.push(key)[0] == parents[0]);
        lemma_grafted_push(root.step_table(parents[0]), parents.skip(1), key, sub);
    }
}

/// Nested creation goes through tables only.
pub proof fn lemma_descended_is_table(root: Node, parents: Seq<Seq<char>>)
    requires
        root is Table,
    ensures
        root.descended(parents) is Table,
    decreases parents.len(),
{
    if parents.len() > 0 {
        lemma_descended_is_table(root.step_table(parents[0]), parents.skip(1));
    }
}

/// Inserting a table and then exchanging it is inserting the other at once.
pub proof fn lemma_inserted_with_child(node: Node, key: Seq<char>, first: Node, second: Node)
    requires
        node is Table,
    ensures
        node.inserted(key, first).with_child(key, second) == node.inserted(key, second),
{
    match node {
        Node::Table { entries, order, implicit, dotted } => {
            assert(entries.insert(key, first).insert(key, second) =~= entries.insert(key, second));
        },
        _ => {},
    }
}

/// A tree keeps its kind when a node below the root is exchanged.
pub proof fn lemma_replaced_keeps_kind(root: Node, path: Seq<Seq<char>>, sub: Node)
    requires
        path.len() > 0,
    ensures
        root.replaced_at(path, sub).kind() == root.kind(),
{
}

/// Where a prefix of a path leads nowhere, so does the path.
pub proof fn lemma_resolve_none_extends(root: Node, path: Seq<Seq<char>>, n: int)
    requires
        0 <= n <= path.len(),
        root.resolve(path.take(n)) is None,
    ensures
        root.resolve(path) is None,
    decreases path.len() - n,
{
    if n < path.len() {
        assert(path.take(n + 1) =~= path.take(n).push(path[n]));
        lemma_resolve_push(root, path.take(n), path[n]);
        lemma_resolve_none_extends(root, path, n + 1);
    } else {
        assert(path.take(n) =~= path);
    }
}

/// A graft of a table onto a table is a table.
pub proof fn lemma_grafted_is_table(root: Node, parents: Seq<Seq<char>>, sub: Node)
    requires
        root is Table,
        sub is Table,
    ensures
        root.grafted(parents, sub) is Table,
{
}

} // verus!

//! The mathematical model of a nested document and of insertion at a key
//! path.

use vstd::prelude::*;

verus! {

/// What a name in a document holds.
pub enum Node {
    /// A leaf: a string value.
    Text(Seq<char>),
    /// A nested document.
    Nested(Map<Seq<char>, Node>),
    /// Any value that is neither a string nor a document. Loading never makes
    /// one, but a caller may have put one into the document beforehand.
    Other,
}

/// A document: a mapping from names to nodes.
pub type Document = Map<Seq<char>, Node>;

/// A key path: the segments of a dotted key, outermost first.
pub type Path = Seq<Seq<char>>;

/// The node that `path` leads to in `doc`, if every segment of it is present
/// and every segment but the last names a nested document.
pub open spec fn lookup(doc: Document, path: Path) -> Option<Node>
    decreases path.len(),
{
    if path.len() == 0 {
        Some(Node::Nested(doc))
    } else if !doc.contains_key(path[0]) {
        None
    } else if path.len() == 1 {
        Some(doc[path[0]])
    } else {
        match doc[path[0]] {
            Node::Nested(child) => lookup(child, path.drop_first()),
            _ => None,
        }
    }
}

/// Whether `path` leads to a nested document in `doc`.
pub open spec fn leads_to_document(doc: Document, path: Path) -> bool {
    lookup(doc, path) matches Some(n) && n is Nested
}

/// The nested document that `path` leads to in `doc`; empty where it leads
/// to none.
pub open spec fn document_at(doc: Document, path: Path) -> Document {
    match lookup(doc, path) {
        Some(Node::Nested(found)) => found,
        _ => Map::empty(),
    }
}

/// Whether `doc` holds nothing but strings and nested documents, at any
/// depth: no path leads to a value of another kind.
pub open spec fn holds_only_text(doc: Document) -> bool {
    forall|path: Path| #[trigger] lookup(doc, path) != Some(Node::Other)
}

/// Whether insertion at `path` is refused: some segment before the last is
/// present in its document and holds something other than a nested document.
pub open spec fn blocked(doc: Document, path: Path) -> bool
    decreases path.len(),
{
    path.len() >= 2 && doc.contains_key(path[0]) && match doc[path[0]] {
        Node::Nested(child) => blocked(child, path.drop_first()),
        _ => true,
    }
}

/// The nested document under `name`, or the empty document if `name` is
/// absent or holds no document.
pub open spec fn child_of(doc: Document, name: Seq<char>) -> Document {
    if doc.contains_key(name) && doc[name] is Nested {
        doc[name]->Nested_0
    } else {
        Map::empty()
    }
}

/// `doc` with the string `value` stored at `path`: the last segment names
/// the leaf in the document that the segments before it lead to. On the way
/// an absent document is created, and what is no document is replaced by
/// one, which insertion refuses: see `blocked`. An empty path stores
/// nothing.
pub open spec fn put(doc: Document, path: Path, value: Seq<char>) -> Document
    decreases path.len(),
{
    if path.len() == 0 {
        doc
    } else if path.len() == 1 {
        doc.insert(path[0], Node::Text(value))
    } else {
        doc.insert(
            path[0],
            Node::Nested(put(child_of(doc, path[0]), path.drop_first(), value)),
        )
    }
}

/// Whether `p` is a prefix of `q`, `q` itself included.
pub open spec fn is_prefix(p: Path, q: Path) -> bool {
    p.len() <= q.len() && q.take(p.len() as int) == p
}

/// A lookup one segment further looks the segment up in the document that
/// the path leads to.
pub proof fn lemma_lookup_below(doc: Document, path: Path, name: Seq<char>)
    ensures
        lookup(doc, path.push(name)) == if leads_to_document(doc, path) && document_at(
            doc,
            path,
        ).contains_key(name) {
            Some(document_at(doc, path)[name])
        } else {
            None
        },
    decreases path.len(),
{
    let longer = path.push(name);
    if path.len() > 0 {
        assert(longer[0] == path[0]);
        assert(longer.drop_first() =~= path.drop_first().push(name));
        if doc.contains_key(path[0]) {
            match doc[path[0]] {
                Node::Nested(child) => {
                    lemma_lookup_below(child, path.drop_first(), name);
                    if path.len() == 1 {
                        assert(path.drop_first() =~= Seq::<Seq<char>>::empty());
                    }
                },
                _ => {},
            }
        }
    }
}

/// After an insertion at `path`, a lookup of `path` finds the inserted
/// string.
pub proof fn lemma_put_then_lookup(doc: Document, path: Path, value: Seq<char>)
    requires
        path.len() >= 1,
    ensures
        lookup(put(doc, path, value), path) == Some(Node::Text(value)),
    decreases path.len(),
{
    if path.len() > 1 {
        lemma_put_then_lookup(child_of(doc, path[0]), path.drop_first(), value);
    }
}

/// After an insertion at `path`, every proper prefix of `path` of `depth`
/// segments, `depth` at least one, leads to a nested document.
pub proof fn lemma_put_nests(doc: Document, path: Path, value: Seq<char>, depth: int)
    requires
        1 <= depth < path.len(),
    ensures
        leads_to_document(put(doc, path, value), path.take(depth)),
    decreases depth,
{
    let prefix = path.take(depth);
    assert(prefix[0] == path[0]);
    if depth > 1 {
        assert(prefix.drop_first() =~= path.drop_first().take(depth - 1));
        lemma_put_nests(child_of(doc, path[0]), path.drop_first(), value, depth - 1);
    }
}

/// An insertion at `path` leaves `path` open, and a second insertion at the
/// same path replaces the first: the last value wins.
pub proof fn lemma_put_twice(doc: Document, path: Path, first: Seq<char>, second: Seq<char>)
    ensures
        !blocked(put(doc, path, first), path),
        put(put(doc, path, first), path, second) == put(doc, path, second),
    decreases path.len(),
{
    if path.len() <= 1 {
        assert(put(put(doc, path, first), path, second) =~= put(doc, path, second));
    } else {
        let child = child_of(doc, path[0]);
        let rest = path.drop_first();
        lemma_put_twice(child, rest, first, second);
        assert(child_of(put(doc, path, first), path[0]) == put(child, rest, first));
        assert(put(put(doc, path, first), path, second) =~= put(doc, path, second));
    }
}

/// After a string has been inserted at `path`, insertion at any path that
/// goes on beyond `path` is blocked: a leaf is never turned into a nested
/// document.
pub proof fn lemma_leaf_blocks_descent(doc: Document, path: Path, value: Seq<char>, longer: Path)
    requires
        path.len() >= 1,
        is_prefix(path, longer),
        path.len() < longer.len(),
    ensures
        blocked(put(doc, path, value), longer),
    decreases path.len(),
{
    assert(longer[0] == longer.take(path.len() as int)[0]);
    if path.len() > 1 {
        assert(longer.drop_first().take(path.len() - 1) =~= longer.take(
            path.len() as int,
        ).drop_first());
        lemma_leaf_blocks_descent(
            child_of(doc, path[0]),
            path.drop_first(),
            value,
            longer.drop_first(),
        );
    }
}

/// Two paths of which neither is a prefix of the other differ in their first
/// segment, or both go on after a common first segment and their rests are
/// again such paths.
pub proof fn lemma_apart_paths(p: Path, q: Path)
    requires
        !is_prefix(p, q),
        !is_prefix(q, p),
    ensures
        p.len() >= 1,
        q.len() >= 1,
        p[0] == q[0] ==> p.len() >= 2 && q.len() >= 2 && !is_prefix(p.drop_first(), q.drop_first())
            && !is_prefix(q.drop_first(), p.drop_first()),
{
    if p.len() == 0 {
        assert(q.take(0) =~= p);
    }
    if q.len() == 0 {
        assert(p.take(0) =~= q);
    }
    if p[0] == q[0] {
        if p.len() == 1 {
            assert(q.take(1) =~= p);
        }
        if q.len() == 1 {
            assert(p.take(1) =~= q);
        }
        let ps = p.drop_first();
        let qs = q.drop_first();
        if is_prefix(ps, qs) {
            assert(q.take(p.len() as int) =~= seq![q[0]] + qs.take(ps.len() as int));
            assert(p =~= seq![p[0]] + ps);
        }
        if is_prefix(qs, ps) {
            assert(p.take(q.len() as int) =~= seq![p[0]] + ps.take(qs.len() as int));
            assert(q =~= seq![q[0]] + qs);
        }
    }
}

/// An insertion at `path` changes nothing at a path `other` where neither
/// path is a prefix of the other.
pub proof fn lemma_put_elsewhere(doc: Document, path: Path, value: Seq<char>, other: Path)
    requires
        !is_prefix(path, other),
        !is_prefix(other, path),
    ensures
        lookup(put(doc, path, value), other) == lookup(doc, other),
    decreases path.len(),
{
    lemma_apart_paths(path, other);
    if path[0] == other[0] {
        lemma_put_elsewhere(
            child_of(doc, path[0]),
            path.drop_first(),
            value,
            other.drop_first(),
        );
    }
}

/// An insertion at an open `path` neither blocks nor opens a path `other`
/// where neither path is a prefix of the other.
pub proof fn lemma_put_keeps_blocked(doc: Document, path: Path, value: Seq<char>, other: Path)
    requires
        !blocked(doc, path),
        !is_prefix(path, other),
        !is_prefix(other, path),
    ensures
        blocked(put(doc, path, value), other) == blocked(doc, other),
    decreases path.len(),
{
    lemma_apart_paths(path, other);
    if path[0] == other[0] {
        lemma_put_keeps_blocked(
            child_of(doc, path[0]),
            path.drop_first(),
            value,
            other.drop_first(),
        );
    }
}

/// Insertions at two paths of which neither is a prefix of the other give
/// the same document in either order: entries below a common prefix merge
/// into the same nested documents.
pub proof fn lemma_puts_commute(doc: Document, p: Path, a: Seq<char>, q: Path, b: Seq<char>)
    requires
        !is_prefix(p, q),
        !is_prefix(q, p),
    ensures
        put(put(doc, p, a), q, b) == put(put(doc, q, b), p, a),
    decreases p.len(),
{
    lemma_apart_paths(p, q);
    if p[0] == q[0] {
        let child = child_of(doc, p[0]);
        lemma_puts_commute(child, p.drop_first(), a, q.drop_first(), b);
        assert(child_of(put(doc, p, a), q[0]) == put(child, p.drop_first(), a));
        assert(child_of(put(doc, q, b), p[0]) == put(child, q.drop_first(), b));
        assert(put(put(doc, p, a), q, b) =~= put(put(doc, q, b), p, a));
    } else {
        assert(child_of(put(doc, p, a), q[0]) == child_of(doc, q[0]));
        assert(child_of(put(doc, q, b), p[0]) == child_of(doc, p[0]));
        assert(put(put(doc, p, a), q, b) =~= put(put(doc, q, b), p, a));
    }
}

/// After insertions at two paths of which neither is a prefix of the other,
/// both strings are found: each at its own path.
pub proof fn lemma_apart_puts_keep_both(
    doc: Document,
    p: Path,
    a: Seq<char>,
    q: Path,
    b: Seq<char>,
)
    requires
        !is_prefix(p, q),
        !is_prefix(q, p),
    ensures
        lookup(put(put(doc, p, a), q, b), p) == Some(Node::Text(a)),
        lookup(put(put(doc, p, a), q, b), q) == Some(Node::Text(b)),
{
    lemma_apart_paths(p, q);
    lemma_put_then_lookup(doc, p, a);
    lemma_put_elsewhere(put(doc, p, a), q, b, p);
    lemma_put_then_lookup(put(doc, p, a), q, b);
}

/// A path that goes on beyond a path that leads to no nested document
/// leads nowhere.
pub proof fn lemma_lookup_beyond(doc: Document, path: Path, longer: Path)
    requires
        is_prefix(path, longer),
        path.len() < longer.len(),
        !leads_to_document(doc, path),
    ensures
        lookup(doc, longer) is None,
    decreases longer.len(),
{
    let front = longer.drop_last();
    assert(longer =~= front.push(longer.last()));
    lemma_lookup_below(doc, front, longer.last());
    if path.len() < front.len() {
        assert(front.take(path.len() as int) =~= longer.take(path.len() as int));
        lemma_lookup_beyond(doc, path, front);
    } else {
        assert(front =~= longer.take(path.len() as int));
    }
}

/// What an insertion at `path` makes of every path: `path` leads to the
/// string, a path that goes on beyond it leads nowhere, a proper prefix of
/// it leads to a nested document, and any other path leads where it led.
pub proof fn lemma_put_reaches(doc: Document, path: Path, value: Seq<char>, other: Path)
    requires
        path.len() >= 1,
    ensures
        other == path ==> lookup(put(doc, path, value), other) == Some(Node::Text(value)),
        is_prefix(path, other) && other != path ==> lookup(put(doc, path, value), other) is None,
        is_prefix(other, path) && other != path ==> leads_to_document(
            put(doc, path, value),
            other,
        ),
        !is_prefix(path, other) && !is_prefix(other, path) ==> lookup(
            put(doc, path, value),
            other,
        ) == lookup(doc, other),
{
    let after = put(doc, path, value);
    lemma_put_then_lookup(doc, path, value);
    assert(path.take(path.len() as int) =~= path);
    assert(other.take(other.len() as int) =~= other);
    if other == path {
    } else if is_prefix(path, other) {
        lemma_lookup_beyond(after, path, other);
    } else if is_prefix(other, path) {
        if other.len() >= 1 {
            lemma_put_nests(doc, path, value, other.len() as int);
        }
    } else {
        lemma_put_elsewhere(doc, path, value, other);
    }
}

/// An insertion into a document that holds nothing but strings and nested
/// documents gives such a document again.
pub proof fn lemma_put_keeps_only_text(doc: Document, path: Path, value: Seq<char>)
    requires
        path.len() >= 1,
        holds_only_text(doc),
    ensures
        holds_only_text(put(doc, path, value)),
{
    assert forall|other: Path| #[trigger]
        lookup(put(doc, path, value), other) != Some(Node::Other) by {
        lemma_put_reaches(doc, path, value, other);
        assert(lookup(doc, other) != Some(Node::Other));
    }
}

} // verus!

//! The annotations that the graph keeps beside its nodes: for a node, under a
//! key, a set of texts.
//!
//! There are two ways to write, and they are kept apart on purpose. What a
//! caller sets under a key replaces what was there (`set_texts`). What the
//! graph notes by itself, the time a node was created and the edges that
//! leave it, is added to what is there (`add_text`).

use vstd::prelude::*;
use crate::assoc::{as_map, has_key, index_of, lemma_rows_determined, Assoc};
use crate::text::utf8_len;
use crate::wire::{Present, Wire};

verus! {

/// A set of texts.
pub type StringSet = Assoc<String, Present>;

/// The annotations of one node: a set of texts under each key.
pub type NodeMeta = Assoc<String, StringSet>;

/// The annotations of all nodes, by node.
pub type Overlay = Assoc<usize, NodeMeta>;

/// A set of texts as it is stored: the texts in order.
pub type SetModel = Seq<(Seq<char>, ())>;

/// The annotations of one node as they are stored: the keys in order, each
/// with its set.
pub type NodeMetaModel = Seq<(Seq<char>, SetModel)>;

/// The annotations of all nodes as they are stored: the nodes in order,
/// each with its annotations.
pub type OverlayModel = Seq<(usize, NodeMetaModel)>;

/// What one node's annotations say: the set of texts under each key.
pub type Annotations = Map<Seq<char>, Set<Seq<char>>>;

/// The texts that a stored set holds.
pub open spec fn members(s: SetModel) -> Set<Seq<char>> {
    as_map(s).dom()
}

/// What the stored annotations of one node say.
pub open spec fn annotations(m: NodeMetaModel) -> Annotations {
    as_map(m).map_values(|s: SetModel| members(s))
}

/// What the stored annotations of all nodes say.
pub open spec fn overlay_map(o: OverlayModel) -> Map<usize, Annotations> {
    as_map(o).map_values(|m: NodeMetaModel| annotations(m))
}

/// The annotations of `node`, none of them if it has no entry.
pub open spec fn annotations_of(all: Map<usize, Annotations>, node: usize) -> Annotations {
    if all.contains_key(node) {
        all[node]
    } else {
        Map::empty()
    }
}

/// The texts under `key`, none if the key is absent.
pub open spec fn texts_under(of_node: Annotations, key: Seq<char>) -> Set<Seq<char>> {
    if of_node.contains_key(key) {
        of_node[key]
    } else {
        Set::empty()
    }
}

/// The annotations after the texts under `key` of `node` are replaced by `texts`.
pub open spec fn with_texts(
    all: Map<usize, Annotations>,
    node: usize,
    key: Seq<char>,
    texts: Set<Seq<char>>,
) -> Map<usize, Annotations> {
    all.insert(node, annotations_of(all, node).insert(key, texts))
}

/// The annotations after `text` is added to those under `key` of `node`.
pub open spec fn with_text_added(
    all: Map<usize, Annotations>,
    node: usize,
    key: Seq<char>,
    text: Seq<char>,
) -> Map<usize, Annotations> {
    with_texts(all, node, key, texts_under(annotations_of(all, node), key).insert(text))
}

/// Stored sets that hold the same texts are stored alike.
pub proof fn lemma_set_determined(s1: SetModel, s2: SetModel)
    requires
        StringSet::valid(s1),
        StringSet::valid(s2),
        members(s1) == members(s2),
    ensures
        s1 == s2,
{
    assert(as_map(s1) =~= as_map(s2));
    lemma_rows_determined::<String, ()>(s1, s2);
}

/// Stored annotations of a node that say the same are stored alike.
pub proof fn lemma_annotations_determined(n1: NodeMetaModel, n2: NodeMetaModel)
    requires
        NodeMeta::valid(n1),
        NodeMeta::valid(n2),
        annotations(n1) == annotations(n2),
    ensures
        n1 == n2,
{
    assert forall|k: Seq<char>| as_map(n1).contains_key(k) == as_map(n2).contains_key(k) by {
        assert(annotations(n1).contains_key(k) == as_map(n1).contains_key(k));
        assert(annotations(n2).contains_key(k) == as_map(n2).contains_key(k));
    }
    assert forall|k: Seq<char>| as_map(n1).contains_key(k) implies as_map(n1)[k] == as_map(
        n2,
    )[k] by {
        assert(has_key(n1, k) && has_key(n2, k));
        let i1 = index_of(n1, k);
        let i2 = index_of(n2, k);
        assert(<(String, StringSet) as Wire>::valid(n1[i1]));
        assert(<(String, StringSet) as Wire>::valid(n2[i2]));
        assert(annotations(n1)[k] == members(as_map(n1)[k]));
        assert(annotations(n2)[k] == members(as_map(n2)[k]));
        lemma_set_determined(n1[i1].1, n2[i2].1);
    }
    assert(as_map(n1) =~= as_map(n2));
    lemma_rows_determined::<String, SetModel>(n1, n2);
}

/// Stored annotations that say the same of every node are stored alike.
pub proof fn lemma_overlay_determined(o1: OverlayModel, o2: OverlayModel)
    requires
        Overlay::valid(o1),
        Overlay::valid(o2),
        overlay_map(o1) == overlay_map(o2),
    ensures
        o1 == o2,
{
    assert forall|k: usize| as_map(o1).contains_key(k) == as_map(o2).contains_key(k) by {
        assert(overlay_map(o1).contains_key(k) == as_map(o1).contains_key(k));
        assert(overlay_map(o2).contains_key(k) == as_map(o2).contains_key(k));
    }
    assert forall|k: usize| as_map(o1).contains_key(k) implies as_map(o1)[k] == as_map(o2)[k] by {
        assert(has_key(o1, k) && has_key(o2, k));
        let i1 = index_of(o1, k);
        let i2 = index_of(o2, k);
        assert(<(usize, NodeMeta) as Wire>::valid(o1[i1]));
        assert(<(usize, NodeMeta) as Wire>::valid(o2[i2]));
        assert(overlay_map(o1)[k] == annotations(as_map(o1)[k]));
        assert(overlay_map(o2)[k] == annotations(as_map(o2)[k]));
        lemma_annotations_determined(o1[i1].1, o2[i2].1);
    }
    assert(as_map(o1) =~= as_map(o2));
    lemma_rows_determined::<usize, NodeMetaModel>(o1, o2);
}

impl Assoc<String, Present> {
    /// The texts in the set.
    pub open spec fn texts(&self) -> Set<Seq<char>> {
        members(self.model())
    }

    /// Puts `text` into the set.
    pub fn add(&mut self, text: String)
        requires
            old(self).wf(),
        ensures
            final(self).wf(),
            final(self).texts() == old(self).texts().insert(text@),
    {
        let n = utf8_len(&text);
        self.insert(text, Present);
        assert(final(self).texts() =~= old(self).texts().insert(text@));
    }

    /// Whether `text` is in the set.
    pub fn has(&self, text: &String) -> (r: bool)
        requires
            self.wf(),
        ensures
            r == self.texts().contains(text@),
    {
        self.contains_key(text)
    }

    /// The set of the texts in `items`.
    pub fn from_vec(items: Vec<String>) -> (r: Self)
        ensures
            r.wf(),
            r.texts() == items@.map_values(|t: String| t@).to_set(),
    {
        let mut r = StringSet::new();
        let mut items = items;
        let ghost all = items@.map_values(|t: String| t@);
        assert(r.texts() =~= Set::empty());
        while items.len() > 0
            invariant
                r.wf(),
                items@.len() <= all.len(),
                items@.map_values(|t: String| t@) == all.subrange(0, items@.len() as int),
                forall|x: Seq<char>|
                    r.texts().contains(x) <==> exists|i: int|
                        items@.len() <= i < all.len() && all[i] == x,
            decreases items.len(),
        {
            let ghost before = items@.map_values(|t: String| t@);
            let ghost had = r.texts();
            let last = items.pop().unwrap();
            let ghost n = items@.len() as int;
            assert(before[n] == last@);
            assert(items@.map_values(|t: String| t@) =~= all.subrange(0, n));
            r.add(last);
            assert forall|x: Seq<char>| r.texts().contains(x) <==> exists|i: int|
                n <= i < all.len() && all[i] == x by {
                if had.contains(x) {
                    let i = choose|i: int| n + 1 <= i < all.len() && all[i] == x;
                    assert(n <= i < all.len() && all[i] == x);
                }
                if x == all[n] {
                    assert(n <= n < all.len() && all[n] == x);
                }
            }
        }
        assert(r.texts() =~= all.to_set()) by {
            assert forall|x: Seq<char>| r.texts().contains(x) <==> all.to_set().contains(x) by {
                if all.to_set().contains(x) {
                    let i = choose|i: int| 0 <= i < all.len() && all[i] == x;
                    assert(0 <= i < all.len() && all[i] == x);
                }
            }
        }
        r
    }
}

impl Assoc<String, StringSet> {
    /// What these annotations say.
    pub open spec fn says(&self) -> Annotations {
        annotations(self.model())
    }
}

impl Assoc<usize, NodeMeta> {
    /// What the annotations of all nodes say.
    pub open spec fn says(&self) -> Map<usize, Annotations> {
        overlay_map(self.model())
    }

    /// The annotations of `node`, if it has any.
    pub fn of_node(&self, node: usize) -> (r: Option<&NodeMeta>)
        requires
            self.wf(),
        ensures
            match r {
                Some(m) => self.says().contains_key(node) && m.says() == self.says()[node]
                    && m.wf(),
                None => !self.says().contains_key(node),
            },
    {
        self.get(&node)
    }

    /// Replaces the texts under `key` of `node` by `texts`.
    pub fn set_texts(&mut self, node: usize, key: String, texts: StringSet)
        requires
            old(self).wf(),
            texts.wf(),
        ensures
            final(self).wf(),
            final(self).says() == with_texts(old(self).says(), node, key@, texts.texts()),
    {
        let n = utf8_len(&key);
        let mut of_node = match self.remove(&node) {
            Some(m) => m,
            None => NodeMeta::new(),
        };
        assert(of_node.says() =~= annotations_of(old(self).says(), node));
        of_node.insert(key, texts);
        assert(of_node.says() =~= annotations_of(old(self).says(), node).insert(
            key@,
            texts.texts(),
        ));
        self.insert(node, of_node);
        assert(final(self).says() =~= with_texts(old(self).says(), node, key@, texts.texts()));
    }

    /// Adds `text` to the texts under `key` of `node`.
    pub fn add_text(&mut self, node: usize, key: String, text: String)
        requires
            old(self).wf(),
        ensures
            final(self).wf(),
            final(self).says() == with_text_added(old(self).says(), node, key@, text@),
    {
        let n = utf8_len(&key);
        let mut of_node = match self.remove(&node) {
            Some(m) => m,
            None => NodeMeta::new(),
        };
        assert(of_node.says() =~= annotations_of(old(self).says(), node));
        let mut texts = match of_node.remove(&key) {
            Some(s) => s,
            None => StringSet::new(),
        };
        assert(texts.texts() =~= texts_under(annotations_of(old(self).says(), node), key@));
        texts.add(text);
        of_node.insert(key, texts);
        assert(of_node.says() =~= annotations_of(old(self).says(), node).insert(
            key@,
            texts_under(annotations_of(old(self).says(), node), key@).insert(text@),
        ));
        self.insert(node, of_node);
        assert(final(self).says() =~= with_text_added(old(self).says(), node, key@, text@));
    }
}

} // verus!

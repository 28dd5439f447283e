use indextree::{Arena, NodeId};
use serde::ser::{Error, Serialize, SerializeMap, SerializeSeq, Serializer};
use serde_indextree::{Node, Outcome, SiblingNodes, Step};

/// A payload with one field. An empty tag stands for a payload that cannot be written.
struct Element {
    tag: &'static str,
}

/// A node object: the payload's own field, and `children` where there are any.
struct Object<'a> {
    node: Node<'a>,
    payloads: &'a [Element],
}

struct Sequence<'a> {
    group: SiblingNodes<'a>,
    payloads: &'a [Element],
}

impl Serialize for Object<'_> {
    fn serialize<S: Serializer>(&self, serializer: S) -> Result<S::Ok, S::Error> {
        let payload = &self.payloads[*self.node.data()];
        if payload.tag.is_empty() {
            return Err(S::Error::custom("payload without a tag"));
        }
        let mut map = serializer.serialize_map(None)?;
        map.serialize_entry("tag", payload.tag)?;
        if let Some(group) = self.node.children() {
            map.serialize_entry("children", &Sequence { group, payloads: self.payloads })?;
        }
        map.end()
    }
}

impl Serialize for Sequence<'_> {
    fn serialize<S: Serializer>(&self, serializer: S) -> Result<S::Ok, S::Error> {
        let mut seq = serializer.serialize_seq(None)?;
        let mut walk = self.group.walk();
        let mut written = Ok(());
        loop {
            let last = if written.is_ok() { Outcome::Written } else { Outcome::Failed };
            match walk.try_step(last).expect("a sibling link leaves the arena") {
                Step::Element(node) => {
                    written = seq.serialize_element(&Object { node, payloads: self.payloads });
                }
                Step::End => return seq.end(),
                Step::Abort => match written {
                    Err(error) => return Err(error),
                    Ok(()) => unreachable!("the walk gives up only after a failure"),
                },
            }
        }
    }
}

fn html(tags: [&'static str; 6]) -> (Arena<usize>, Vec<NodeId>, Vec<Element>) {
    let mut arena = Arena::new();
    let ids: Vec<NodeId> = (0..6).map(|key| arena.new_node(key)).collect();
    ids[0].append(ids[1], &mut arena).unwrap();
    ids[1].append(ids[2], &mut arena).unwrap();
    ids[0].append(ids[3], &mut arena).unwrap();
    ids[3].append(ids[4], &mut arena).unwrap();
    ids[3].append(ids[5], &mut arena).unwrap();
    let payloads = tags.iter().map(|tag| Element { tag }).collect();
    (arena, ids, payloads)
}

const TAGS: [&str; 6] = ["html", "head", "title", "body", "h1", "h2"];

#[test]
fn html_tree_serializes_as_nested_objects() {
    let (arena, ids, payloads) = html(TAGS);
    let root = Object { node: Node::new(ids[0], &arena), payloads: &payloads };
    assert_eq!(
        serde_json::to_string(&root).unwrap(),
        "{\"tag\":\"html\",\"children\":[\
            {\"tag\":\"head\",\"children\":[{\"tag\":\"title\"}]},\
            {\"tag\":\"body\",\"children\":[{\"tag\":\"h1\"},{\"tag\":\"h2\"}]}\
        ]}"
    );
}

#[test]
fn childless_node_serializes_without_children_key() {
    let (arena, ids, payloads) = html(TAGS);
    for (leaf, text) in [(2, "{\"tag\":\"title\"}"), (4, "{\"tag\":\"h1\"}"), (5, "{\"tag\":\"h2\"}")] {
        let object = Object { node: Node::new(ids[leaf], &arena), payloads: &payloads };
        assert_eq!(serde_json::to_string(&object).unwrap(), text);
    }
}

#[test]
fn isolated_node_serializes_to_its_payload() {
    let mut arena = Arena::new();
    let alone = arena.new_node(0);
    let payloads = [Element { tag: "p" }];
    let object = Object { node: Node::new(alone, &arena), payloads: &payloads };
    assert_eq!(serde_json::to_string(&object).unwrap(), "{\"tag\":\"p\"}");
}

#[test]
fn sibling_group_serializes_as_sequence() {
    let (arena, ids, payloads) = html(TAGS);
    let group = Sequence { group: SiblingNodes::new(ids[4], &arena), payloads: &payloads };
    assert_eq!(serde_json::to_string(&group).unwrap(), "[{\"tag\":\"h1\"},{\"tag\":\"h2\"}]");
    let group = Sequence { group: SiblingNodes::new(ids[5], &arena), payloads: &payloads };
    assert_eq!(serde_json::to_string(&group).unwrap(), "[{\"tag\":\"h2\"}]");
    let group = Sequence { group: SiblingNodes::new(ids[3], &arena), payloads: &payloads };
    assert_eq!(
        serde_json::to_string(&group).unwrap(),
        "[{\"tag\":\"body\",\"children\":[{\"tag\":\"h1\"},{\"tag\":\"h2\"}]}]"
    );
}

#[test]
fn serialized_children_match_standalone_objects() {
    let (arena, ids, payloads) = html(TAGS);
    let root = Object { node: Node::new(ids[0], &arena), payloads: &payloads };
    let whole = serde_json::to_value(&root).unwrap();
    let nested = whole.get("children").unwrap().as_array().unwrap();
    assert_eq!(nested.len(), 2);
    for (n, child) in [ids[1], ids[3]].into_iter().enumerate() {
        let alone = Object { node: Node::new(child, &arena), payloads: &payloads };
        assert_eq!(nested[n], serde_json::to_value(&alone).unwrap());
    }
}

#[test]
fn failure_in_descendant_fails_every_ancestor() {
    // h1 cannot be written
    let (arena, ids, payloads) = html(["html", "head", "title", "body", "", "h2"]);
    for ancestor in [ids[4], ids[3], ids[0]] {
        let object = Object { node: Node::new(ancestor, &arena), payloads: &payloads };
        let error = serde_json::to_string(&object).unwrap_err();
        assert!(error.to_string().contains("payload without a tag"));
    }
    // what does not hold h1 is written as before
    let head = Object { node: Node::new(ids[1], &arena), payloads: &payloads };
    assert_eq!(
        serde_json::to_string(&head).unwrap(),
        "{\"tag\":\"head\",\"children\":[{\"tag\":\"title\"}]}"
    );
    let h2 = Object { node: Node::new(ids[5], &arena), payloads: &payloads };
    assert_eq!(serde_json::to_string(&h2).unwrap(), "{\"tag\":\"h2\"}");
}

#[test]
fn failure_of_the_root_payload_fails_the_root() {
    let (arena, ids, payloads) = html(["", "head", "title", "body", "h1", "h2"]);
    let root = Object { node: Node::new(ids[0], &arena), payloads: &payloads };
    assert!(serde_json::to_string(&root).is_err());
    let body = Object { node: Node::new(ids[3], &arena), payloads: &payloads };
    assert!(serde_json::to_string(&body).is_ok());
}

#[test]
fn failure_stops_the_sequence_at_the_failing_sibling() {
    let (arena, ids, payloads) = html(["html", "head", "title", "body", "", "h2"]);
    let group = Sequence { group: SiblingNodes::new(ids[4], &arena), payloads: &payloads };
    let mut out = Vec::new();
    let result = group.serialize(&mut serde_json::Serializer::new(&mut out));
    assert!(result.is_err());
    // the sequence was opened, and nothing of h2 was written after the failure
    assert!(!String::from_utf8(out).unwrap().contains("h2"));
}

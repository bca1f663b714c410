use id_tree::{InsertBehavior, Node, NodeId, Tree};
use scene_chunks::support::model::{indent_count, Actor, ActorNode};
use scene_chunks::support::reader::ByteReader;
use scene_chunks::support::Error;

fn record(tag: u32, payload: &[u8]) -> Vec<u8> {
    let mut out = Vec::new();
    out.extend_from_slice(&tag.to_be_bytes());
    out.extend_from_slice(&(payload.len() as u32).to_be_bytes());
    out.extend_from_slice(payload);
    out
}

fn actor_name(name: &str, visible: u8) -> Vec<u8> {
    let mut payload = vec![visible, 0];
    payload.extend_from_slice(name.as_bytes());
    payload.push(0);
    record(0x23, &payload)
}

fn text(tag: u32, name: &str) -> Vec<u8> {
    let mut payload = name.as_bytes().to_vec();
    payload.push(0);
    record(tag, &payload)
}

fn transform(first: f32) -> Vec<u8> {
    let mut payload = Vec::new();
    for i in 0..12 {
        payload.extend_from_slice(&(first + i as f32).to_bits().to_be_bytes());
    }
    record(0x2b, &payload)
}

fn transform_bits(first: f32) -> [u32; 12] {
    let mut out = [0u32; 12];
    for i in 0..12 {
        out[i] = (first + i as f32).to_bits();
    }
    out
}

fn down() -> Vec<u8> {
    record(0x29, &[])
}

fn up() -> Vec<u8> {
    record(0x2a, &[])
}

fn end() -> Vec<u8> {
    record(0, &[])
}

fn join(parts: &[Vec<u8>]) -> Vec<u8> {
    parts.concat()
}

fn children(actor: &Actor, id: &NodeId) -> Vec<NodeId> {
    actor.tree.get(id).unwrap().children().clone()
}

fn data(actor: &Actor, id: &NodeId) -> ActorNode {
    actor.tree.get(id).unwrap().data().clone()
}

fn named(name: &str, visible: bool) -> ActorNode {
    ActorNode::Actor { name: name.to_string(), visible }
}

fn count(actor: &Actor) -> usize {
    actor.tree.traverse_pre_order(&actor.root_id).unwrap().count()
}

#[test]
fn actors_hang_under_the_node_that_was_entered_last() {
    let bytes = join(&[
        actor_name("A", 1),
        transform(1.0),
        down(),
        actor_name("B", 1),
        up(),
        actor_name("C", 0),
        end(),
    ]);
    let mut rdr = ByteReader::new(bytes);
    let actor = Actor::load(&mut rdr).unwrap();
    assert!(rdr.is_at_end());
    assert_eq!(Some(&actor.root_id), actor.tree.root_node_id());
    assert_eq!(ActorNode::Root, data(&actor, &actor.root_id));
    assert_eq!(None, actor.tree.get(&actor.root_id).unwrap().parent());

    let top = children(&actor, &actor.root_id);
    assert_eq!(2, top.len());
    assert_eq!(named("A", true), data(&actor, &top[0]));
    assert_eq!(named("C", false), data(&actor, &top[1]));
    assert_eq!(Some(&actor.root_id), actor.tree.get(&top[0]).unwrap().parent());

    let under_a = children(&actor, &top[0]);
    assert_eq!(2, under_a.len());
    assert_eq!(ActorNode::Transform(transform_bits(1.0)), data(&actor, &under_a[0]));
    assert_eq!(named("B", true), data(&actor, &under_a[1]));
    assert_eq!(Some(&top[0]), actor.tree.get(&under_a[1]).unwrap().parent());
    assert!(children(&actor, &under_a[0]).is_empty());
    assert!(children(&actor, &under_a[1]).is_empty());
    assert!(children(&actor, &top[1]).is_empty());
    assert_eq!(5, count(&actor));
}

#[test]
fn an_empty_tree_is_a_root() {
    let mut rdr = ByteReader::new(end());
    let actor = Actor::load(&mut rdr).unwrap();
    assert_eq!(ActorNode::Root, data(&actor, &actor.root_id));
    assert!(children(&actor, &actor.root_id).is_empty());
    assert_eq!(1, count(&actor));
    assert!(rdr.is_at_end());
}

#[test]
fn a_transform_hangs_under_the_actor_named_last() {
    let bytes = join(&[
        actor_name("A", 1),
        down(),
        actor_name("B", 1),
        up(),
        transform(5.0),
        end(),
    ]);
    let actor = Actor::load(&mut ByteReader::new(bytes)).unwrap();
    let top = children(&actor, &actor.root_id);
    assert_eq!(1, top.len());
    let under_a = children(&actor, &top[0]);
    assert_eq!(1, under_a.len());
    assert_eq!(named("B", true), data(&actor, &under_a[0]));
    let under_b = children(&actor, &under_a[0]);
    assert_eq!(1, under_b.len());
    assert_eq!(ActorNode::Transform(transform_bits(5.0)), data(&actor, &under_b[0]));
}

#[test]
fn a_transform_before_any_actor_hangs_under_the_root() {
    let actor = Actor::load(&mut ByteReader::new(join(&[transform(0.0), end()]))).unwrap();
    let top = children(&actor, &actor.root_id);
    assert_eq!(1, top.len());
    assert_eq!(ActorNode::Transform(transform_bits(0.0)), data(&actor, &top[0]));
}

#[test]
fn references_hang_under_the_node_that_was_entered_last() {
    let bytes = join(&[
        record(0x12, &[0, 0, 0, 1, 0, 0, 0, 2]),
        actor_name("CAR.ACT", 1),
        text(0x24, "TOP.DAT"),
        down(),
        text(0x24, "CAR.DAT"),
        text(0x26, "RED.MAT"),
        actor_name("WHEEL.ACT", 1),
        up(),
        text(0x26, "LAST.MAT"),
        end(),
    ]);
    let actor = Actor::load(&mut ByteReader::new(bytes)).unwrap();
    let top = children(&actor, &actor.root_id);
    assert_eq!(3, top.len());
    assert_eq!(named("CAR.ACT", true), data(&actor, &top[0]));
    assert_eq!(ActorNode::MeshfileRef("TOP.DAT".to_string()), data(&actor, &top[1]));
    assert_eq!(ActorNode::MaterialRef("LAST.MAT".to_string()), data(&actor, &top[2]));
    let under_car = children(&actor, &top[0]);
    assert_eq!(3, under_car.len());
    assert_eq!(ActorNode::MeshfileRef("CAR.DAT".to_string()), data(&actor, &under_car[0]));
    assert_eq!(ActorNode::MaterialRef("RED.MAT".to_string()), data(&actor, &under_car[1]));
    assert_eq!(named("WHEEL.ACT", true), data(&actor, &under_car[2]));
}

#[test]
fn going_up_at_the_root_changes_nothing() {
    let bytes = join(&[up(), up(), actor_name("A", 1), up(), actor_name("B", 1), end()]);
    let actor = Actor::load(&mut ByteReader::new(bytes)).unwrap();
    let top = children(&actor, &actor.root_id);
    assert_eq!(2, top.len());
    assert_eq!(named("A", true), data(&actor, &top[0]));
    assert_eq!(named("B", true), data(&actor, &top[1]));
}

#[test]
fn going_down_twice_enters_the_same_actor() {
    let bytes = join(&[
        actor_name("A", 1),
        down(),
        down(),
        actor_name("B", 1),
        up(),
        actor_name("C", 1),
        up(),
        actor_name("D", 1),
        end(),
    ]);
    let actor = Actor::load(&mut ByteReader::new(bytes)).unwrap();
    let top = children(&actor, &actor.root_id);
    assert_eq!(3, top.len());
    assert_eq!(named("A", true), data(&actor, &top[0]));
    assert_eq!(named("C", true), data(&actor, &top[1]));
    assert_eq!(named("D", true), data(&actor, &top[2]));
    let under_a = children(&actor, &top[0]);
    assert_eq!(1, under_a.len());
    assert_eq!(named("B", true), data(&actor, &under_a[0]));
}

#[test]
fn only_the_flag_one_makes_an_actor_visible() {
    let bytes = join(&[actor_name("A", 0), actor_name("B", 1), actor_name("C", 2), end()]);
    let actor = Actor::load(&mut ByteReader::new(bytes)).unwrap();
    let top = children(&actor, &actor.root_id);
    assert_eq!(named("A", false), data(&actor, &top[0]));
    assert_eq!(named("B", true), data(&actor, &top[1]));
    assert_eq!(named("C", false), data(&actor, &top[2]));
}

#[test]
fn actor_stops_at_a_tag_without_decoder() {
    let bytes = join(&[actor_name("A", 1), record(0x25, &[9, 9]), end()]);
    let len = bytes.len();
    let mut rdr = ByteReader::new(bytes);
    match Actor::load(&mut rdr) {
        Err(e) => assert_eq!(Error::UnsupportedChunk { tag: 0x25, size: 2 }, e),
        Ok(_) => panic!("a record without decoder was passed over"),
    }
    assert_eq!(len, rdr.remaining());
}

#[test]
fn actor_stops_at_a_record_of_a_mesh() {
    let bytes = join(&[actor_name("A", 1), record(0x17, &[0, 0, 0, 0]), end()]);
    let mut rdr = ByteReader::new(bytes);
    match Actor::load(&mut rdr) {
        Err(e) => assert_eq!(Error::UnexpectedChunk { tag: 0x17 }, e),
        Ok(_) => panic!("a record of a mesh was taken into an actor"),
    }
    assert_eq!(0, rdr.position());
}

#[test]
fn actor_refuses_the_header_of_another_kind_of_file() {
    let bytes = join(&[record(0x12, &[0, 0, 0xfa, 0xce, 0, 0, 0, 2]), end()]);
    match Actor::load(&mut ByteReader::new(bytes)) {
        Err(e) => assert_eq!(Error::InvalidFileType { file_type: 0xface }, e),
        Ok(_) => panic!("the header of a mesh opened an actor"),
    }
}

#[test]
fn actor_without_its_last_record_is_an_io_error() {
    for bytes in [vec![], actor_name("A", 1), join(&[actor_name("A", 1), vec![0, 0, 0]])] {
        match Actor::load(&mut ByteReader::new(bytes)) {
            Err(e) => assert_eq!(Error::IO, e),
            Ok(_) => panic!("an actor was read from bytes that end too early"),
        }
    }
}

#[test]
fn all_actors_are_read_up_to_the_end_of_the_bytes() {
    let bytes = join(&[actor_name("A", 1), end(), end(), actor_name("B", 1), actor_name("C", 1), end()]);
    let mut rdr = ByteReader::new(bytes);
    let (actors, stopped) = Actor::load_all(&mut rdr);
    assert_eq!(None, stopped);
    assert_eq!(3, actors.len());
    assert_eq!(2, count(&actors[0]));
    assert_eq!(1, count(&actors[1]));
    assert_eq!(3, count(&actors[2]));
    assert_eq!(named("A", true), data(&actors[0], &children(&actors[0], &actors[0].root_id)[0]));
    assert_eq!(named("C", true), data(&actors[2], &children(&actors[2], &actors[2].root_id)[1]));
    assert!(rdr.is_at_end());
}

#[test]
fn no_bytes_hold_no_actors() {
    let mut rdr = ByteReader::new(vec![]);
    let (actors, stopped) = Actor::load_all(&mut rdr);
    assert!(actors.is_empty());
    assert_eq!(None, stopped);
}

#[test]
fn an_error_ends_the_reading_of_actors_and_is_told_apart_from_the_end() {
    let first = join(&[actor_name("A", 1), end()]);
    let bytes = join(&[first.clone(), actor_name("B", 1), record(0x03, &[]), end()]);
    let mut rdr = ByteReader::new(bytes);
    let (actors, stopped) = Actor::load_all(&mut rdr);
    assert_eq!(Some(Error::UnsupportedChunk { tag: 3, size: 0 }), stopped);
    assert_eq!(1, actors.len());
    assert_eq!(first.len(), rdr.position());

    let cut = join(&[first.clone(), actor_name("B", 1)]);
    let mut rdr = ByteReader::new(cut);
    let (actors, stopped) = Actor::load_all(&mut rdr);
    assert_eq!(Some(Error::IO), stopped);
    assert_eq!(1, actors.len());
    assert_eq!(first.len(), rdr.position());
}

#[test]
fn new_puts_a_root_on_an_empty_tree() {
    let actor = Actor::new(Tree::new());
    assert_eq!(Some(&actor.root_id), actor.tree.root_node_id());
    assert_eq!(ActorNode::Root, data(&actor, &actor.root_id));
    assert!(children(&actor, &actor.root_id).is_empty());
}

#[test]
fn new_puts_a_root_on_top_of_what_the_tree_holds() {
    let mut tree: Tree<ActorNode> = Tree::new();
    let old_root = tree.insert(Node::new(named("old", true)), InsertBehavior::AsRoot).unwrap();
    let child =
        tree.insert(Node::new(named("child", true)), InsertBehavior::UnderNode(&old_root)).unwrap();
    let actor = Actor::new(tree);
    assert!(actor.root_id != old_root);
    assert_eq!(Some(&actor.root_id), actor.tree.root_node_id());
    assert_eq!(ActorNode::Root, data(&actor, &actor.root_id));
    assert_eq!(vec![old_root.clone()], children(&actor, &actor.root_id));
    assert_eq!(Some(&actor.root_id), actor.tree.get(&old_root).unwrap().parent());
    assert_eq!(named("old", true), data(&actor, &old_root));
    assert_eq!(vec![child], children(&actor, &old_root));
}

#[test]
fn a_line_is_indented_once_more_than_its_parent_has_ancestors() {
    assert_eq!(0, indent_count(None));
    assert_eq!(1, indent_count(Some(0)));
    assert_eq!(4, indent_count(Some(3)));
}

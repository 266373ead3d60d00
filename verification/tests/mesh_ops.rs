use polymesh::Mesh;

#[test]
fn test_add_vert() {
    let mut mesh = Mesh::<_, (), ()>::new();
    let vk = mesh.add_vert(());
    assert!(vk.is_some());
    assert!(mesh.get_vert(vk.unwrap()).is_some());
}

#[test]
fn test_add_edge() {
    let mut mesh = Mesh::<_, _, ()>::new();
    let a = mesh.add_vert(()).unwrap();
    let b = mesh.add_vert(()).unwrap();

    // Add a valid edge
    let e = mesh.add_edge(a, b, ()).unwrap();
    assert!(mesh.get_vert(a).unwrap().get_edges().contains(&e));
    assert!(mesh.get_vert(b).unwrap().get_edges().contains(&e));

    // Edge from a vertex to the same vertex is not allowed
    assert!(mesh.add_edge(a, a, ()).is_none());

    // Duplicate edge should return the existing edge
    assert_eq!(mesh.add_edge(a, b, ()).unwrap(), e);
    assert_eq!(mesh.add_edge(b, a, ()).unwrap(), e);
}

#[test]
fn test_add_face() {
    let mut mesh = Mesh::new();
    let a = mesh.add_vert(()).unwrap();
    let b = mesh.add_vert(()).unwrap();
    let c = mesh.add_vert(()).unwrap();

    // Add a valid triangle: exactly one edge per consecutive vertex pair
    let fk = mesh.add_face(&[a, b, c], (), ()).unwrap();
    let e_ab = mesh.find_edge(a, b).unwrap();
    let e_bc = mesh.find_edge(b, c).unwrap();
    let e_ca = mesh.find_edge(c, a).unwrap();
    assert_ne!(e_ab, e_bc);
    assert_ne!(e_bc, e_ca);
    assert_ne!(e_ab, e_ca);
    for lp in mesh.get_face(fk).unwrap().get_loops().iter() {
        assert!(mesh.get_edge(lp.edge).unwrap().is_face_adjacent(fk));
    }

    // Add an invalid triangle with invalid edge
    assert!(mesh.add_face(&[a, b, b], (), ()).is_none());
}

#[test]
fn test_vert_adjacent_faces() {
    // Create a bow-tie mesh
    let mut mesh = Mesh::new();
    let middle = mesh.add_vert(()).unwrap();
    let l0 = mesh.add_vert(()).unwrap();
    let l1 = mesh.add_vert(()).unwrap();
    let r0 = mesh.add_vert(()).unwrap();
    let r1 = mesh.add_vert(()).unwrap();
    let fk0 = mesh.add_face(&[middle, l0, l1], (), ()).unwrap();
    let fk1 = mesh.add_face(&[middle, r0, r1], (), ()).unwrap();

    let adj = mesh.vert_adjacent_faces(middle);
    assert_eq!(adj.len(), 2);
    assert!(adj.contains(&fk0));
    assert!(adj.contains(&fk1));
}

#[test]
fn test_ngon() {
    let mut mesh = Mesh::new();
    let a = mesh.add_vert(()).unwrap();
    let b = mesh.add_vert(()).unwrap();
    let c = mesh.add_vert(()).unwrap();
    let d = mesh.add_vert(()).unwrap();
    let e = mesh.add_vert(()).unwrap();

    let fk = mesh.add_face(&[a, b, c, d, e], (), ()).unwrap();
    let face = mesh.get_face(fk).unwrap();

    assert_eq!(face.get_loops().len(), 5);
}

#[test]
fn test_separate_connected_edges() {
    let mut mesh = Mesh::<_, _, ()>::new();
    let vk0 = mesh.add_vert(()).unwrap();
    let vk1 = mesh.add_vert(()).unwrap();
    let ek0 = mesh.add_edge(vk0, vk1, ()).unwrap();

    let vk2 = mesh.add_vert(()).unwrap();
    let vk3 = mesh.add_vert(()).unwrap();
    let vk4 = mesh.add_vert(()).unwrap();
    let vk5 = mesh.add_vert(()).unwrap();
    let ek1 = mesh.add_edge(vk2, vk3, ()).unwrap();
    let ek2 = mesh.add_edge(vk3, vk4, ()).unwrap();
    let ek3 = mesh.add_edge(vk3, vk5, ()).unwrap();

    let ce = mesh.separate_connected_edges(vec![ek0, ek1, ek2, ek3]);
    assert_eq!(ce.len(), 2);
    assert!(ce[0].len() == 1 || ce[1].len() == 1);
    let g0 = if ce[0].len() == 1 { &ce[0] } else { &ce[1] };
    let g1 = if ce[0].len() == 1 { &ce[1] } else { &ce[0] };

    assert_eq!(g0, &[ek0]);
    assert_eq!(g1.len(), 3);
    assert!(g1.contains(&ek1));
    assert!(g1.contains(&ek2));
    assert!(g1.contains(&ek3));
}

#[test]
fn test_find_edge_symmetric() {
    let mut mesh = Mesh::<_, _, ()>::new();
    let a = mesh.add_vert(()).unwrap();
    let b = mesh.add_vert(()).unwrap();
    let c = mesh.add_vert(()).unwrap();
    let e = mesh.add_edge(a, b, ()).unwrap();
    assert_eq!(mesh.find_edge(a, b), Some(e));
    assert_eq!(mesh.find_edge(b, a), Some(e));
    assert_eq!(mesh.find_edge(a, c), None);
    assert_eq!(mesh.find_edge(c, b), None);
}

#[test]
fn test_key_reuse_after_delete() {
    let mut mesh = Mesh::new();
    let a = mesh.add_vert(()).unwrap();
    let b = mesh.add_vert(()).unwrap();
    let c = mesh.add_vert(()).unwrap();
    let f0 = mesh.add_face(&[a, b, c], (), ()).unwrap();
    let reused = f0.value();
    mesh.delete_face(f0);
    assert!(mesh.get_face(f0).is_none());
    // The allocator issues the lowest free identifier, so the released
    // face key comes back for the next face.
    let f1 = mesh.add_face(&[a, c, b], (), ()).unwrap();
    assert_eq!(f1.value(), reused);
}

#[test]
fn test_delete_face_detaches_edges() {
    let mut mesh = Mesh::new();
    let a = mesh.add_vert(()).unwrap();
    let b = mesh.add_vert(()).unwrap();
    let c = mesh.add_vert(()).unwrap();
    let fk = mesh.add_face(&[a, b, c], (), ()).unwrap();
    let e_ab = mesh.find_edge(a, b).unwrap();
    assert!(mesh.get_edge(e_ab).unwrap().is_face_adjacent(fk));

    mesh.delete_face(fk);
    assert!(mesh.get_face(fk).is_none());
    // The boundary edges survive, but no longer list the face.
    assert!(mesh.get_edge(e_ab).unwrap().get_faces().is_empty());
    assert_eq!(mesh.vert_adjacent_faces(a).len(), 0);
    // Deleting an absent face is a no-op.
    mesh.delete_face(fk);
    assert!(mesh.find_edge(a, b).is_some());
}

#[test]
fn test_vert_edge_ring_soup() {
    // A fan of two triangles around vertex c.
    let mut mesh = Mesh::new();
    let c = mesh.add_vert(()).unwrap();
    let a = mesh.add_vert(()).unwrap();
    let b = mesh.add_vert(()).unwrap();
    let d = mesh.add_vert(()).unwrap();
    mesh.add_face(&[c, a, b], (), ()).unwrap();
    mesh.add_face(&[c, b, d], (), ()).unwrap();

    let ring = mesh.vert_edge_ring_soup(c);
    let e_ab = mesh.find_edge(a, b).unwrap();
    let e_bd = mesh.find_edge(b, d).unwrap();
    assert_eq!(ring.len(), 2);
    assert!(ring.contains(&e_ab));
    assert!(ring.contains(&e_bd));
}

#[test]
fn test_payload_access() {
    let mut mesh = Mesh::new();
    let a = mesh.add_vert(3i32).unwrap();
    let b = mesh.add_vert(4i32).unwrap();
    let e = mesh.add_edge(a, b, 5i64).unwrap();
    let c = mesh.add_vert(6i32).unwrap();
    let f = mesh.add_face(&[a, b, c], 7i64, 8u8).unwrap();
    assert_eq!(mesh.get_vert_data(a), Some(&3i32));
    assert_eq!(mesh.get_vert_data(b), Some(&4i32));
    assert_eq!(mesh.get_edge_data(e), Some(&5i64));
    assert_eq!(mesh.get_face_data(f), Some(&8u8));
    assert_eq!(mesh.get_vert(a).unwrap().vdata, 3i32);
    assert_eq!(mesh.get_edge(e).unwrap().edata, 5i64);
    assert_eq!(mesh.get_face(f).unwrap().fdata, 8u8);
}

#[test]
fn test_absent_keys_are_rejected() {
    let mut mesh = Mesh::<_, _, ()>::new();
    let a = mesh.add_vert(()).unwrap();
    let ghostly = polymesh::VKey::new(9999);
    assert!(mesh.get_vert(ghostly).is_none());
    assert!(mesh.find_edge(a, ghostly).is_none());
    assert!(mesh.add_edge(a, ghostly, ()).is_none());
    assert!(mesh.add_face(&[a, ghostly, a], (), ()).is_none());
    assert!(mesh.vert_adjacent_faces(ghostly).is_empty());
}

#[test]
fn test_edge_accessors() {
    let mut mesh = Mesh::<_, _, ()>::new();
    let a = mesh.add_vert(()).unwrap();
    let b = mesh.add_vert(()).unwrap();
    let c = mesh.add_vert(()).unwrap();
    let e = mesh.add_edge(a, b, ()).unwrap();
    let edge = mesh.get_edge(e).unwrap();
    assert_eq!(edge.get_verts(), &[a, b]);
    assert_eq!(edge.other_vert(a), Some(b));
    assert_eq!(edge.other_vert(b), Some(a));
    assert_eq!(edge.other_vert(c), None);
    assert!(edge.get_faces().is_empty());
    assert!(mesh.get_vert(a).unwrap().is_edge_adjacent(e));
}

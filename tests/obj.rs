use ray_tracer::obj::{fan_triangulation, FaceVertex, ObjError, ObjParser, ObjTriangle};

fn point(coords: &Vec<Vec<u8>>) -> (f64, f64, f64) {
    let f = |k: usize| -> f64 { String::from_utf8(coords[k].clone()).unwrap().parse().unwrap() };
    (f(0), f(1), f(2))
}

fn flat(v1: usize, v2: usize, v3: usize) -> ObjTriangle {
    ObjTriangle { v1, v2, v3, n1: 0, n2: 0, n3: 0 }
}

#[test]
fn ignore_gibberish() {
    // ignoring unrecognized lines
    let gibberish = "
        There was a young lady name Bright
        who traveled much faster than ight.
        She set out one day
        in a relative way,
        and came back the previous night.
        ";
    let parser = ObjParser::from_str(gibberish).unwrap();
    assert_eq!(parser.lines_ignored, 5);
}

#[test]
fn vertex_records() {
    let records = "
        v -1 1 0
        v -1.0000 0.5000 0.0000
        v 1 0 0
        v 1 1 0
        ";
    let parser = ObjParser::from_str(records).unwrap();
    // records are numbered from 1
    assert_eq!(point(&parser.vertices[0]), (-1.0, 1.0, 0.0));
    assert_eq!(point(&parser.vertices[1]), (-1.0, 0.5, 0.0));
    assert_eq!(point(&parser.vertices[2]), (1.0, 0.0, 0.0));
    assert_eq!(point(&parser.vertices[3]), (1.0, 1.0, 0.0));
}

#[test]
fn parse_triangle_faces() {
    // parsing triangle faces
    let contents = "
        v -1 1 0
        v -1 0 0
        v 1 0 0
        v 1 1 0

        f 1 2 3
        f 1 3 4
        ";
    let parser = ObjParser::from_str(contents).unwrap();
    let g = &parser.default_group;
    assert_eq!(g.len(), 2);
    assert_eq!(g[0], flat(1, 2, 3));
    assert_eq!(g[1], flat(1, 3, 4));
}

#[test]
fn triangulate_polygons() {
    // triangulating polygons
    let contents = "
        v -1 1 0
        v -1 0 0
        v 1 0 0
        v 1 1 0
        v 0 2 0

        f 1 2 3 4 5
        ";
    let parser = ObjParser::from_str(contents).unwrap();
    let g = &parser.default_group;
    assert_eq!(g.len(), 3);
    assert_eq!(g[0], flat(1, 2, 3));
    assert_eq!(g[1], flat(1, 3, 4));
    assert_eq!(g[2], flat(1, 4, 5));
}

#[test]
fn parse_groups() {
    let contents = "
        v -1 1 0
        v -1 0 0
        v 1 0 0
        v 1 1 0

        g FirstGroup
        f 1 2 3
        g SecondGroup
        f 1 3 4
        ";
    let parser = ObjParser::from_str(contents).unwrap();
    assert_eq!(parser.groups.len(), 2);
    let g1 = &parser.groups[0];
    let g2 = &parser.groups[1];
    assert_eq!(g1.name, b"FirstGroup".to_vec());
    assert_eq!(g2.name, b"SecondGroup".to_vec());
    assert_eq!(g1.triangles, vec![flat(1, 2, 3)]);
    assert_eq!(g2.triangles, vec![flat(1, 3, 4)]);
    assert!(parser.default_group.is_empty());
    assert_eq!(parser.current_group, Some(1));
}

#[test]
fn vertex_normal_records() {
    let contents = "
        vn 0 0 1
        vn 0.707 0 -0.707
        vn 1 2 3
        ";
    let parser = ObjParser::from_str(contents).unwrap();
    assert_eq!(point(&parser.normals[0]), (0.0, 0.0, 1.0));
    assert_eq!(point(&parser.normals[1]), (0.707, 0.0, -0.707));
    assert_eq!(point(&parser.normals[2]), (1.0, 2.0, 3.0));
}

#[test]
fn faces_with_normals() {
    // two spaces after v
    let contents = "
        v  0 1 0
        v -1 0 0
        v 1 0 0

        vn -1 0 0
        vn 1 0 0
        vn 0 1 0

        f 1//3 2//1 3//2
        f 1/0/3 2/102/1 3/14/2
        ";
    let parser = ObjParser::from_str(contents).unwrap();
    assert_eq!(point(&parser.vertices[0]), (0.0, 1.0, 0.0));
    let g = &parser.default_group;
    assert_eq!(g.len(), 2);
    let smooth = ObjTriangle { v1: 1, v2: 2, v3: 3, n1: 3, n2: 1, n3: 2 };
    assert_eq!(g[0], smooth);
    assert_eq!(g[1], g[0]);
}

#[test]
fn reopened_group_starts_empty() {
    let contents = "v 0 0 0\nv 1 0 0\nv 0 1 0\ng a\nf 1 2 3\ng b\ng a\nf 3 2 1\n";
    let parser = ObjParser::from_str(contents).unwrap();
    assert_eq!(parser.groups.len(), 2);
    assert_eq!(parser.groups[0].triangles, vec![flat(3, 2, 1)]);
    assert!(parser.groups[1].triangles.is_empty());
}

#[test]
fn face_with_unknown_vertex_is_rejected() {
    let contents = "v 0 0 0\nv 1 0 0\nf 1 2 3\n";
    assert_eq!(ObjParser::from_str(contents).err(), Some(ObjError::IndexOutOfRange));
}

#[test]
fn face_with_unknown_normal_is_rejected() {
    let contents = "v 0 0 0\nv 1 0 0\nv 0 1 0\nf 1//1 2//1 3//1\n";
    assert_eq!(ObjParser::from_str(contents).err(), Some(ObjError::IndexOutOfRange));
}

#[test]
fn face_with_malformed_index_is_rejected() {
    let contents = "v 0 0 0\nv 1 0 0\nv 0 1 0\nf 1 x 3\n";
    assert_eq!(ObjParser::from_str(contents).err(), Some(ObjError::BadIndex));
    let contents = "v 0 0 0\nv 1 0 0\nv 0 1 0\nf 1  2 3\n";
    assert_eq!(ObjParser::from_str(contents).err(), Some(ObjError::BadIndex));
}

#[test]
fn short_vertex_record_is_rejected() {
    assert_eq!(ObjParser::from_str("v 1 2\n").err(), Some(ObjError::MissingCoordinates));
    assert_eq!(ObjParser::from_str("vn 1\n").err(), Some(ObjError::MissingCoordinates));
}

#[test]
fn group_without_name_is_rejected() {
    assert_eq!(ObjParser::from_str("g\n").err(), Some(ObjError::MissingGroupName));
}

#[test]
fn plus_signed_indices_are_read() {
    let contents = "v 0 0 0\nv 1 0 0\nv 0 1 0\nf +1 +2 3\n";
    let parser = ObjParser::from_str(contents).unwrap();
    assert_eq!(parser.default_group, vec![flat(1, 2, 3)]);
}

#[test]
fn fan_of_square() {
    let c = |v: usize| FaceVertex { vertex: v, normal: 0 };
    let es = vec![c(1), c(2), c(3), c(4)];
    assert_eq!(fan_triangulation(&es), vec![flat(1, 2, 3), flat(1, 3, 4)]);
    assert!(fan_triangulation(&vec![c(1), c(2)]).is_empty());
}

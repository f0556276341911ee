use wireframe::{Face, Mesh, MeshError, MeshText, Vec3Bits};

fn coords_of(text: &MeshText) -> Vec<Vec3Bits> {
    text.vertices
        .iter()
        .map(|v| {
            let x: f32 = std::str::from_utf8(&v.x).unwrap().parse().unwrap();
            let y: f32 = std::str::from_utf8(&v.y).unwrap().parse().unwrap();
            let z: f32 = std::str::from_utf8(&v.z).unwrap().parse().unwrap();
            Vec3Bits::new(x.to_bits(), y.to_bits(), z.to_bits())
        })
        .collect()
}

#[test]
fn two_line_file_gives_one_vertex_and_one_face() {
    let text = MeshText::parse(b"v 1.0 2.0 3.0\nf 1 1 1").unwrap();
    assert_eq!(text.vertices.len(), 1);
    assert_eq!(text.faces.len(), 1);
    assert_eq!(text.faces[0], Face { a: 1, b: 1, c: 1 });
    let coords = coords_of(&text);
    let mesh = Mesh::from_text(&text, coords).unwrap();
    assert_eq!(mesh.vertices.len(), 1);
    assert_eq!(mesh.faces.len(), 1);
    assert_eq!(mesh.faces[0], Face { a: 1, b: 1, c: 1 });
    assert_eq!(f32::from_bits(mesh.vertices[0].x), 1.0);
    assert_eq!(f32::from_bits(mesh.vertices[0].y), 2.0);
    assert_eq!(f32::from_bits(mesh.vertices[0].z), 3.0);
}

#[test]
fn unknown_and_blank_lines_are_ignored() {
    let data = b"# a comment\nv 1 2 3\n\nvt 0.5 0.5\nf 1/2/3 1/4 1\n";
    let text = MeshText::parse(data).unwrap();
    assert_eq!(text.vertices.len(), 1);
    assert_eq!(text.faces.len(), 1);
    assert_eq!(text.faces[0], Face { a: 1, b: 1, c: 1 });
}

#[test]
fn windows_line_endings_are_accepted() {
    let text = MeshText::parse(b"v 1 2 3\r\nf 1 1 1\r\n").unwrap();
    assert_eq!(text.vertices.len(), 1);
    assert_eq!(text.faces.len(), 1);
}

#[test]
fn empty_text_gives_an_empty_mesh() {
    let text = MeshText::parse(b"").unwrap();
    assert_eq!(text.vertices.len(), 0);
    assert_eq!(text.faces.len(), 0);
}

#[test]
fn a_vertex_line_missing_a_field_is_a_parse_error() {
    assert_eq!(
        MeshText::parse(b"v 1.0 2.0"),
        Err(MeshError::ParseError { line: 0 })
    );
}

#[test]
fn a_non_numeric_vertex_field_is_a_parse_error() {
    assert_eq!(
        MeshText::parse(b"v 1.0 x 3.0"),
        Err(MeshError::ParseError { line: 0 })
    );
}

#[test]
fn the_first_bad_line_is_reported() {
    assert_eq!(
        MeshText::parse(b"v 1 2 3\nf 1 1\nv bad bad bad"),
        Err(MeshError::ParseError { line: 1 })
    );
}

#[test]
fn extra_face_fields_are_parsed_but_ignored() {
    let text = MeshText::parse(b"v 1 2 3\nf 1 1 1 1").unwrap();
    assert_eq!(text.faces[0], Face { a: 1, b: 1, c: 1 });
    assert_eq!(
        MeshText::parse(b"v 1 2 3\nf 1 1 1 junk"),
        Err(MeshError::ParseError { line: 1 })
    );
}

#[test]
fn a_face_index_with_a_plus_sign_reads_like_the_standard_library() {
    assert_eq!("+1".parse::<usize>(), Ok(1));
    let text = MeshText::parse(b"v 1 2 3\nf +1 1 1").unwrap();
    assert_eq!(text.faces[0], Face { a: 1, b: 1, c: 1 });
}

#[test]
fn an_overflowing_face_index_is_a_parse_error() {
    assert!("99999999999999999999999".parse::<usize>().is_err());
    assert_eq!(
        MeshText::parse(b"v 1 2 3\nf 99999999999999999999999 1 1"),
        Err(MeshError::ParseError { line: 1 })
    );
}

#[test]
fn a_face_index_outside_the_vertex_list_is_a_validation_error() {
    assert_eq!(
        MeshText::parse(b"v 1 2 3\nf 1 2 1"),
        Err(MeshError::ValidationError { face: 0 })
    );
    assert_eq!(
        MeshText::parse(b"v 1 2 3\nf 0 1 1"),
        Err(MeshError::ValidationError { face: 0 })
    );
}

#[test]
fn a_face_may_name_a_vertex_defined_later() {
    let text = MeshText::parse(b"f 1 2 2\nv 1 2 3\nv 4 5 6").unwrap();
    assert_eq!(text.vertices.len(), 2);
    assert_eq!(text.faces[0], Face { a: 1, b: 2, c: 2 });
}

#[test]
fn the_float_grammar_agrees_with_the_standard_library() {
    let accepted = ["1.", ".5", "1e5", "-inf", "NaN", "+3.25e-2", "Infinity", "007", "1.e3"];
    let rejected = [".", "1e", "--1", "1.2.3", "e5", "1e+", "nanx", "0x1", "1_000"];
    for tok in accepted {
        assert!(tok.parse::<f32>().is_ok(), "std rejects {}", tok);
        let data = format!("v {} 0 0", tok);
        assert!(MeshText::parse(data.as_bytes()).is_ok(), "grammar rejects {}", tok);
    }
    for tok in rejected {
        assert!(tok.parse::<f32>().is_err(), "std accepts {}", tok);
        let data = format!("v {} 0 0", tok);
        assert_eq!(
            MeshText::parse(data.as_bytes()),
            Err(MeshError::ParseError { line: 0 }),
            "grammar accepts {}",
            tok
        );
    }
}

#[test]
fn the_cube_has_eight_unit_corners_and_twelve_faces() {
    let cube = Mesh::new_cube();
    assert_eq!(cube.vertices.len(), 8);
    assert_eq!(cube.faces.len(), 12);
    for v in &cube.vertices {
        for bits in [v.x, v.y, v.z] {
            let c = f32::from_bits(bits);
            assert!(c == 1.0 || c == -1.0);
        }
    }
    assert_eq!(f32::from_bits(cube.vertices[0].x), -1.0);
    assert_eq!(f32::from_bits(cube.vertices[2].x), 1.0);
    assert_eq!(cube.faces[0], Face { a: 1, b: 2, c: 3 });
    assert_eq!(cube.faces[11], Face { a: 8, b: 4, c: 6 });
    assert_eq!(f32::from_bits(cube.rotation.x), 0.0);
    assert_eq!(f32::from_bits(cube.scale.x), 1.0);
    assert_eq!(f32::from_bits(cube.scale.y), 1.0);
    assert_eq!(f32::from_bits(cube.scale.z), 1.0);
    assert_eq!(f32::from_bits(cube.translation.z), 0.0);
}

#[test]
fn face_vertices_resolves_the_one_based_indices() {
    let cube = Mesh::new_cube();
    let vs = cube.face_vertices(0);
    assert_eq!(vs[0], cube.vertices[0]);
    assert_eq!(vs[1], cube.vertices[1]);
    assert_eq!(vs[2], cube.vertices[2]);
    let vs = cube.face_vertices(11);
    assert_eq!(vs[0], cube.vertices[7]);
    assert_eq!(vs[1], cube.vertices[3]);
    assert_eq!(vs[2], cube.vertices[5]);
}

#[test]
fn from_text_requires_one_coordinate_per_vertex() {
    let text = MeshText::parse(b"v 1 2 3\nf 1 1 1").unwrap();
    assert!(Mesh::from_text(&text, Vec::new()).is_none());
}

#[test]
fn loaded_coordinates_come_back_out_of_the_mesh() {
    let text = MeshText::parse(b"v 1.5 -2.25 1e3\nv 0 0 0\nf 1 2 1").unwrap();
    let mesh = Mesh::from_text(&text, coords_of(&text)).unwrap();
    assert_eq!(f32::from_bits(mesh.vertices[0].x), 1.5);
    assert_eq!(f32::from_bits(mesh.vertices[0].y), -2.25);
    assert_eq!(f32::from_bits(mesh.vertices[0].z), 1000.0);
    let vs = mesh.face_vertices(0);
    assert_eq!(f32::from_bits(vs[1].x), 0.0);
}

use render3d::draw::{primitives, DrawMode, Primitive};

fn outline() -> Vec<Primitive> {
    vec![
        Primitive::Edge { from: 0, to: 1 },
        Primitive::Edge { from: 1, to: 2 },
        Primitive::Edge { from: 2, to: 0 },
        Primitive::Marker { at: 0 },
        Primitive::Marker { at: 1 },
        Primitive::Marker { at: 2 },
    ]
}

#[test]
fn filled_mode_draws_the_face_only() {
    assert_eq!(primitives(DrawMode::Filled), vec![Primitive::Fill]);
}

#[test]
fn wireframe_mode_draws_three_edges_and_three_markers() {
    assert_eq!(primitives(DrawMode::Wireframe), outline());
}

#[test]
fn both_mode_draws_the_outline_over_the_face() {
    let mut expected = vec![Primitive::Fill];
    expected.extend(outline());
    assert_eq!(primitives(DrawMode::Both), expected);
}

#[test]
fn outline_is_three_edges_round_the_triangle_and_a_marker_on_each_corner() {
    let drawn = primitives(DrawMode::Wireframe);
    let edges: Vec<(usize, usize)> = drawn
        .iter()
        .filter_map(|p| match p {
            Primitive::Edge { from, to } => Some((*from, *to)),
            _ => None,
        })
        .collect();
    let markers: Vec<usize> = drawn
        .iter()
        .filter_map(|p| match p {
            Primitive::Marker { at } => Some(*at),
            _ => None,
        })
        .collect();
    assert_eq!(edges, vec![(0, 1), (1, 2), (2, 0)]);
    assert_eq!(markers, vec![0, 1, 2]);
    assert_eq!(drawn.len(), 6);
}

use render3d::draw::{primitives, DrawMode, Primitive};
use render3d::frame::{plan_frame, Candidate, Dispatch};
use render3d::mesh::{Mesh, Vertex};
use render3d::single::Single;

fn single(x: f32) -> Single {
    Single::from_bits(x.to_bits())
}

fn position(v: &Vertex) -> [f32; 3] {
    let n = |w: &Vec<char>| w.iter().collect::<String>().parse::<f32>().unwrap();
    [n(&v.x), n(&v.y), n(&v.z)]
}

fn minus(a: [f32; 3], b: [f32; 3]) -> [f32; 3] {
    [a[0] - b[0], a[1] - b[1], a[2] - b[2]]
}

fn dot(a: [f32; 3], b: [f32; 3]) -> f32 {
    a[0] * b[0] + a[1] * b[1] + a[2] * b[2]
}

fn normal(p: [[f32; 3]; 3]) -> [f32; 3] {
    let l1 = minus(p[1], p[0]);
    let l2 = minus(p[2], p[0]);
    let n = [
        l1[1] * l2[2] - l1[2] * l2[1],
        l1[2] * l2[0] - l1[0] * l2[2],
        l1[0] * l2[1] - l1[1] * l2[0],
    ];
    let len = dot(n, n).sqrt();
    [n[0] / len, n[1] / len, n[2] / len]
}

/// Projects with a field of view of 90 degrees and an aspect ratio of one,
/// then maps to a surface of the given size.
fn to_screen(p: [f32; 3], near: f32, far: f32, width: f32, height: f32) -> [f32; 3] {
    let f = 1.0 / (90.0f32 * 0.5 / 180.0 * std::f32::consts::PI).tan();
    let x = p[0] * f;
    let y = p[1] * f;
    let z = p[2] * (far / (far - near)) + (-far * near) / (far - near);
    let w = p[2];
    [(x / w + 1.0) * 0.5 * width, (y / w + 1.0) * 0.5 * height, z / w]
}

fn candidates(mesh: &Mesh, camera: [f32; 3], light: [f32; 3]) -> (Vec<Candidate>, Vec<[[f32; 3]; 3]>) {
    let mut cs = Vec::new();
    let mut screens = Vec::new();
    for t in mesh.tris.iter() {
        let p = [position(&t.p[0]), position(&t.p[1]), position(&t.p[2])];
        let n = normal(p);
        let s = [
            to_screen(p[0], 0.1, 1000.0, 512.0, 480.0),
            to_screen(p[1], 0.1, 1000.0, 512.0, 480.0),
            to_screen(p[2], 0.1, 1000.0, 512.0, 480.0),
        ];
        cs.push(Candidate {
            facing: single(dot(n, minus(p[0], camera))),
            intensity: single(dot(n, light)),
            depth: single((s[0][2] + s[1][2] + s[2][2]) / 3.0),
        });
        screens.push(s);
    }
    (cs, screens)
}

#[test]
fn triangle_facing_the_camera_is_drawn_with_full_shade() {
    // One triangle in the plane z = 5, wound so that its normal points at
    // the camera, which sits at the origin. The light shines along -z.
    let mesh = Mesh::load_from_obj_text("v -1 -1 5\nv -1 1 5\nv 1 -1 5\nf 1 2 3\n").unwrap();
    let (cs, screens) = candidates(&mesh, [0.0, 0.0, 0.0], [0.0, 0.0, -1.0]);
    assert_eq!(f32::from_bits(cs[0].facing.to_bits()), -5.0);
    assert_eq!(f32::from_bits(cs[0].intensity.to_bits()), 1.0);

    let plan = plan_frame(&cs, true);
    assert_eq!(plan, vec![Dispatch { source: 0, shade: single(1.0) }]);

    let expected = [[204.8, 192.0], [204.8, 288.0], [307.2, 192.0]];
    for k in 0..3 {
        assert!((screens[0][k][0] - expected[k][0]).abs() < 1.0e-3);
        assert!((screens[0][k][1] - expected[k][1]).abs() < 1.0e-3);
        assert!((screens[0][k][2] - 0.980098).abs() < 1.0e-5);
    }
    assert_eq!(primitives(DrawMode::Filled), vec![Primitive::Fill]);
}

#[test]
fn triangle_facing_away_is_not_drawn() {
    // The same triangle with the opposite winding.
    let mesh = Mesh::load_from_obj_text("v -1 -1 5\nv 1 -1 5\nv -1 1 5\nf 1 2 3\n").unwrap();
    let (cs, _) = candidates(&mesh, [0.0, 0.0, 0.0], [0.0, 0.0, -1.0]);
    assert_eq!(f32::from_bits(cs[0].facing.to_bits()), 5.0);
    assert_eq!(plan_frame(&cs, true), Vec::new());
    assert_eq!(plan_frame(&cs, false), Vec::new());
}

#[test]
fn triangle_seen_edge_on_is_not_drawn() {
    // The triangle lies in the plane x = 0, which holds the camera.
    let mesh = Mesh::load_from_obj_text("v 0 -1 5\nv 0 1 5\nv 0 -1 7\nf 1 2 3\n").unwrap();
    let (cs, _) = candidates(&mesh, [0.0, 0.0, 0.0], [0.0, 0.0, -1.0]);
    assert_eq!(f32::from_bits(cs[0].facing.to_bits()), 0.0);
    assert_eq!(plan_frame(&cs, true), Vec::new());
}

#[test]
fn nearer_triangle_is_drawn_after_the_farther_one() {
    let text = "v -1 -1 5\nv -1 1 5\nv 1 -1 5\nv -1 -1 9\nv -1 1 9\nv 1 -1 9\nf 1 2 3\nf 4 5 6\n";
    let mesh = Mesh::load_from_obj_text(text).unwrap();
    let (cs, _) = candidates(&mesh, [0.0, 0.0, 0.0], [0.0, 0.0, -1.0]);
    let plan = plan_frame(&cs, true);
    assert_eq!(plan.iter().map(|d| d.source).collect::<Vec<usize>>(), vec![1, 0]);
    let plan = plan_frame(&cs, false);
    assert_eq!(plan.iter().map(|d| d.source).collect::<Vec<usize>>(), vec![0, 1]);
}

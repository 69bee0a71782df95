use scene_converter::scalar::Scalar;
use scene_converter::transform::Transform;

fn bits3(x: f32, y: f32, z: f32) -> [u32; 3] {
    [x.to_bits(), y.to_bits(), z.to_bits()]
}

fn bits4(x: f32, y: f32, z: f32, w: f32) -> [u32; 4] {
    [x.to_bits(), y.to_bits(), z.to_bits(), w.to_bits()]
}

#[test]
fn identity_is_origin_no_rotation_unit_scale() {
    let t = Transform::identity();
    assert_eq!(t, Transform::from_bits(bits3(0.0, 0.0, 0.0), bits4(0.0, 0.0, 0.0, 1.0), bits3(1.0, 1.0, 1.0)));
    assert!(t.is_finite());
    assert!(!t.has_degenerate_scale());
}

#[test]
fn from_bits_keeps_every_component() {
    let t = Transform::from_bits([1, 2, 3], [4, 5, 6, 7], [8, 9, 10]);
    assert_eq!(t.position, [Scalar::new(1), Scalar::new(2), Scalar::new(3)]);
    assert_eq!(t.rotation, [Scalar::new(4), Scalar::new(5), Scalar::new(6), Scalar::new(7)]);
    assert_eq!(t.scale, [Scalar::new(8), Scalar::new(9), Scalar::new(10)]);
}

#[test]
fn one_component_that_is_not_finite_makes_the_transform_not_finite() {
    let good = Transform::identity();
    for slot in 0..10 {
        let mut position = bits3(0.0, 0.0, 0.0);
        let mut rotation = bits4(0.0, 0.0, 0.0, 1.0);
        let mut scale = bits3(1.0, 1.0, 1.0);
        let bad = if slot % 2 == 0 { f32::NAN } else { f32::NEG_INFINITY };
        if slot < 3 {
            position[slot] = bad.to_bits();
        } else if slot < 7 {
            rotation[slot - 3] = bad.to_bits();
        } else {
            scale[slot - 7] = bad.to_bits();
        }
        let t = Transform::from_bits(position, rotation, scale);
        assert!(!t.is_finite(), "slot {}", slot);
        assert_ne!(t, good);
    }
}

#[test]
fn a_zero_scale_on_any_axis_is_degenerate() {
    for axis in 0..3 {
        let mut scale = bits3(1.0, 2.0, 3.0);
        scale[axis] = if axis == 1 { (-0.0f32).to_bits() } else { 0.0f32.to_bits() };
        let t = Transform::from_bits(bits3(0.0, 0.0, 0.0), bits4(0.0, 0.0, 0.0, 1.0), scale);
        assert!(t.has_degenerate_scale(), "axis {}", axis);
    }
    let t = Transform::from_bits(bits3(0.0, 0.0, 0.0), bits4(0.0, 0.0, 0.0, 1.0), bits3(1e-30, 1.0, 1.0));
    assert!(!t.has_degenerate_scale());
}

#[test]
fn a_zero_position_is_not_degenerate() {
    let t = Transform::from_bits(bits3(0.0, 0.0, 0.0), bits4(0.0, 0.0, 0.0, 1.0), bits3(1.0, 1.0, 1.0));
    assert!(!t.has_degenerate_scale());
}

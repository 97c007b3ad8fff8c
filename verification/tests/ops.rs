use metal_fusion::fusion::HALF_PI;
use metal_fusion::fusion::INV_LN_2;
use metal_fusion::fusion::NEG_ONE;
use metal_fusion::op::half_bits_eq;
use metal_fusion::op::Dependency;
use metal_fusion::op::MetalCos;
use metal_fusion::op::MetalExp;
use metal_fusion::op::Op;
use metal_fusion::op::OpKind;
use metal_fusion::op::ShapeTracker;

#[test]
fn the_constants_are_those_of_the_half_crate() {
    assert_eq!(HALF_PI, (half::f16::PI / half::f16::from_f32(2.)).to_bits());
    assert_eq!(HALF_PI, half::f16::FRAC_PI_2.to_bits());
    assert_eq!(NEG_ONE, half::f16::NEG_ONE.to_bits());
    assert_eq!(INV_LN_2, half::f16::from_f32(1.0 / f32::ln(2.)).to_bits());
}

#[test]
fn bit_equality_agrees_with_the_half_crate() {
    let samples: [u16; 14] = [
        0x0000, 0x8000, 0x0001, 0x8001, 0x3C00, 0xBC00, 0x3E48, 0x3DC5, 0x7C00, 0xFC00, 0x7C01,
        0xFE00, 0x7FFF, 0x7BFF,
    ];
    for a in samples {
        for b in samples {
            assert_eq!(
                half_bits_eq(a, b),
                half::f16::from_bits(a) == half::f16::from_bits(b),
                "{a:#x} {b:#x}"
            );
        }
    }
}

#[test]
fn half_equality_edge_cases() {
    assert!(half_bits_eq(0x0000, 0x8000));
    assert!(half_bits_eq(0x3E48, 0x3E48));
    assert!(!half_bits_eq(0x3E48, 0x3E49));
    assert!(!half_bits_eq(0x7E00, 0x7E00));
    assert!(!half_bits_eq(0x7C01, 0x3C00));
    assert!(half_bits_eq(0x7C00, 0x7C00));
    assert!(!half_bits_eq(0x7C00, 0xFC00));
}

#[test]
fn kernels_never_compare_equal() {
    let a = MetalCos::new(1, 2);
    assert_eq!((a.pipeline, a.device), (1, 2));
    assert!(!(a == a));
    assert!(a != MetalCos::new(1, 2));
    let b = MetalExp::new(3, 4);
    assert_eq!((b.pipeline, b.device), (3, 4));
    assert!(!(b == b));
}

#[test]
fn custom_answers_to_metal_only() {
    let a = MetalCos::new(5, 6);
    let got = a.custom("metal").unwrap();
    assert_eq!((got.pipeline, got.device), (5, 6));
    assert!(a.custom("cuda").is_none());
    assert!(a.custom("").is_none());
    assert!(a.custom("Metal").is_none());
    let b = MetalExp::new(7, 8);
    let got = b.custom("metal").unwrap();
    assert_eq!((got.pipeline, got.device), (7, 8));
    assert!(b.custom("metal ").is_none());
}

#[test]
fn kinds_and_payloads() {
    assert_eq!(Op::Constant(7).kind(), OpKind::Constant);
    assert_eq!(Op::Mul.kind(), OpKind::Mul);
    assert_eq!(Op::Add.kind(), OpKind::Add);
    assert_eq!(Op::Sin.kind(), OpKind::Sin);
    assert_eq!(Op::Exp2.kind(), OpKind::Exp2);
    assert_eq!(Op::Cos(MetalCos::new(0, 0)).kind(), OpKind::Cos);
    assert_eq!(Op::Exp(MetalExp::new(0, 0)).kind(), OpKind::Exp);
    assert_eq!(Op::Other(3).kind(), OpKind::Other);
    assert_eq!(Op::Constant(7).as_constant(), Some(7));
    assert_eq!(Op::Mul.as_constant(), None);
}

#[test]
fn data_and_schedule_edges() {
    let d = Dependency::Data { input_order: 1, output_order: 2, shape: ShapeTracker(3) };
    assert_eq!(d.as_data(), Some((1, 2, ShapeTracker(3))));
    assert!(!d.is_schedule());
    assert_eq!(Dependency::Schedule.as_data(), None);
    assert!(Dependency::Schedule.is_schedule());
}

use detection::trig;

#[test]
fn table_follows_cosine_and_sine() {
    let one: f64 = trig::TRIG_ONE as f64;
    for a in 0..trig::ANGLES {
        let theta: f64 = a as f64 * 2.0 * std::f64::consts::PI / trig::ANGLES as f64;
        let (c, s) = trig::cos_sin(a);
        assert!((c as f64 - theta.cos() * one).abs() < 1.001, "cosine of bucket {}", a);
        assert!((s as f64 - theta.sin() * one).abs() < 1.001, "sine of bucket {}", a);
    }
}

#[test]
fn directions_are_no_longer_than_one() {
    let one: i128 = trig::TRIG_ONE as i128;
    for a in 0..trig::ANGLES {
        let (c, s) = trig::cos_sin(a);
        let norm: i128 = c as i128 * c as i128 + s as i128 * s as i128;
        assert!(norm <= one * one);
        assert!(norm >= (one - 2) * (one - 2));
    }
}

#[test]
fn axes_are_exact() {
    assert_eq!(trig::cos_sin(0), (trig::TRIG_ONE, 0));
    assert_eq!(trig::cos_sin(225), (0, trig::TRIG_ONE));
    assert_eq!(trig::cos_sin(450), (-trig::TRIG_ONE, 0));
    assert_eq!(trig::cos_sin(675), (0, -trig::TRIG_ONE));
    assert_eq!(trig::cos_sin(150).0, trig::TRIG_ONE / 2);
    assert_eq!(trig::cos_sin(75).1, trig::TRIG_ONE / 2);
}

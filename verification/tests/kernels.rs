use resampler::algorithms::{
    even_hermite, lerp, piecewise_constant, tangent, tangentless_hermite, Kernel, Op,
    UnknownKernel, HALF, MINUS_ONE, MINUS_TWO, MINUS_ZERO, ONE, THREE, TWO, ZERO,
};

fn phase(n: u64, d: u64) -> u32 {
    (n as f32 / d as f32).to_bits()
}

fn arithmetic(op: Op) -> u32 {
    let f = f32::from_bits;
    let value = match op {
        Op::Add(a, b) => f(a) + f(b),
        Op::Sub(a, b) => f(a) - f(b),
        Op::Mul(a, b) => f(a) * f(b),
        Op::Div(a, b) => f(a) / f(b),
        Op::Neg(a) => -f(a),
    };
    value.to_bits()
}

fn floating_lerp(start: f32, end: f32, t: f32) -> f32 {
    (1.0 - t) * start + t * end
}

fn floating_tangentless_hermite(start: f32, end: f32, t: f32) -> f32 {
    let hermite = t * t * (3.0 - 2.0 * t);
    (1.0 - hermite) * start + hermite * end
}

fn floating_even_hermite(pos_0: f32, pos_1: f32, m_0: f32, m_1: f32, t: f32) -> f32 {
    let t2 = t * t;
    let t3 = t2 * t;
    let h01 = -2.0 * t3 + 3.0 * t2;
    let h00 = -h01 + 1.0;
    let h11 = t3 - t2;
    let h10 = t3 - 2.0 * t2 + t;
    h00 * pos_0 + h10 * m_0 + h01 * pos_1 + h11 * m_1
}

const VALUES: [f32; 12] =
    [0.0, 1.0, -1.0, 0.1, -0.3, 10.0, 1.0e-3, 123.456, -7.5e8, 3.0e-20, 16777217.0, -2.5];

const PHASES: [(u64, u64); 9] =
    [(0, 1), (1, 2), (1, 3), (2, 3), (1, 10), (7, 10), (999, 1000), (147, 160), (1, 1 << 40)];

#[test]
fn constants_are_the_numbers_they_are_named_after() {
    assert_eq!(ZERO, 0.0f32.to_bits());
    assert_eq!(HALF, 0.5f32.to_bits());
    assert_eq!(ONE, 1.0f32.to_bits());
    assert_eq!(TWO, 2.0f32.to_bits());
    assert_eq!(THREE, 3.0f32.to_bits());
    assert_eq!(MINUS_TWO, (-2.0f32).to_bits());
    assert_eq!(MINUS_ONE, (-1.0f32).to_bits());
    assert_eq!(MINUS_ZERO, (-0.0f32).to_bits());
}

#[test]
fn piecewise_constant_holds_the_left_sample_below_one_half() {
    assert_eq!(piecewise_constant(1, 2, phase(0, 4)), 1);
    assert_eq!(piecewise_constant(1, 2, phase(1, 4)), 1);
    assert_eq!(piecewise_constant(1, 2, phase(49, 100)), 1);
    assert_eq!(piecewise_constant(1, 2, 0.49999997f32.to_bits()), 1);
    assert_eq!(piecewise_constant(1, 2, f32::from_bits(1).to_bits()), 1);
}

#[test]
fn piecewise_constant_holds_the_right_sample_from_one_half() {
    assert_eq!(piecewise_constant(1, 2, phase(2, 4)), 2);
    assert_eq!(piecewise_constant(1, 2, phase(3, 4)), 2);
    assert_eq!(piecewise_constant(1, 2, phase(50, 100)), 2);
    assert_eq!(piecewise_constant(1, 2, HALF), 2);
    assert_eq!(piecewise_constant(1, 2, ONE), 2);
    assert_eq!(piecewise_constant(1, 2, 0.99999994f32.to_bits()), 2);
}

#[test]
fn piecewise_constant_compares_as_single_precision_does() {
    let phases = [
        0.0f32, -0.0, 0.5, -0.5, 0.25, 1.0, -1.0, 1.0e-40, -1.0e-40, f32::INFINITY,
        f32::NEG_INFINITY, f32::NAN, -f32::NAN, f32::MAX, f32::MIN, 0.49999997, 0.50000006,
    ];
    for t in phases {
        let want = if t < 0.5 { 1 } else { 2 };
        assert_eq!(piecewise_constant(1, 2, t.to_bits()), want);
    }
    for bits in (0..=u32::MAX).step_by(65_521) {
        let want = if f32::from_bits(bits) < 0.5 { 1 } else { 2 };
        assert_eq!(piecewise_constant(1, 2, bits), want);
    }
}

#[test]
fn lerp_is_one_less_t_times_start_plus_t_times_end() {
    let at = |a: f32, b: f32, n: u64, d: u64| {
        f32::from_bits(lerp(a.to_bits(), b.to_bits(), phase(n, d), &arithmetic))
    };
    assert_eq!(at(0.0, 10.0, 1, 2), 5.0);
    assert_eq!(at(10.0, 20.0, 1, 4), 12.5);
    assert_eq!(at(-4.0, 4.0, 3, 4), 2.0);
    for a in VALUES {
        for b in VALUES {
            for (n, d) in PHASES {
                let t = n as f32 / d as f32;
                assert_eq!(at(a, b, n, d).to_bits(), floating_lerp(a, b, t).to_bits());
            }
        }
    }
}

#[test]
fn tangentless_hermite_blends_by_the_smoothstep_weight() {
    let at = |a: f32, b: f32, n: u64, d: u64| {
        f32::from_bits(tangentless_hermite(
            a.to_bits(),
            b.to_bits(),
            phase(n, d),
            &arithmetic,
        ))
    };
    assert_eq!(at(0.0, 10.0, 1, 2), 5.0);
    assert_eq!(at(0.0, 10.0, 1, 4), 1.5625);
    assert_eq!(at(0.0, 10.0, 3, 4), 8.4375);
    for a in VALUES {
        for b in VALUES {
            for (n, d) in PHASES {
                let t = n as f32 / d as f32;
                assert_eq!(
                    at(a, b, n, d).to_bits(),
                    floating_tangentless_hermite(a, b, t).to_bits()
                );
            }
        }
    }
}

#[test]
fn even_hermite_is_the_cubic_hermite_basis() {
    let at = |pos_0: f32, pos_1: f32, m_0: f32, m_1: f32, n: u64, d: u64| {
        f32::from_bits(even_hermite(
            pos_0.to_bits(),
            pos_1.to_bits(),
            m_0.to_bits(),
            m_1.to_bits(),
            phase(n, d),
            &arithmetic,
        ))
    };
    // At one half the weights are 1/2, 1/8, 1/2 and -1/8.
    assert_eq!(at(0.0, 10.0, 10.0, 10.0, 1, 2), 5.0);
    assert_eq!(at(2.0, 8.0, 4.0, 3.0, 1, 2), 1.0 + 0.5 + 4.0 - 0.375);
    assert_eq!(at(7.0, 9.0, 100.0, -100.0, 0, 1), 7.0);
    for pos_0 in VALUES {
        for pos_1 in [0.0f32, -3.5, 2.0e6] {
            for m_0 in [0.0f32, 1.25, -8.0e-4] {
                for m_1 in VALUES {
                    for (n, d) in PHASES {
                        let t = n as f32 / d as f32;
                        assert_eq!(
                            at(pos_0, pos_1, m_0, m_1, n, d).to_bits(),
                            floating_even_hermite(pos_0, pos_1, m_0, m_1, t).to_bits()
                        );
                    }
                }
            }
        }
    }
}

#[test]
fn tangent_is_half_the_difference() {
    let of = |behind: f32, ahead: f32| {
        f32::from_bits(tangent(behind.to_bits(), ahead.to_bits(), &arithmetic))
    };
    assert_eq!(of(0.0, 20.0), 10.0);
    assert_eq!(of(10.0, 20.0), 5.0);
    assert_eq!(of(20.0, 20.0), 0.0);
    assert_eq!(of(3.0, -2.0), -2.5);
    for a in VALUES {
        for b in VALUES {
            assert_eq!(of(a, b).to_bits(), ((b - a) * 0.5).to_bits());
        }
    }
}

#[test]
fn kernels_meet_their_left_sample_at_phase_zero() {
    let zero = ZERO;
    for a in VALUES {
        for b in VALUES {
            let (a, b) = (a.to_bits(), b.to_bits());
            assert_eq!(piecewise_constant(a, b, zero), a);
            assert_eq!(lerp(a, b, zero, &arithmetic), a);
            assert_eq!(tangentless_hermite(a, b, zero, &arithmetic), a);
            assert_eq!(even_hermite(a, b, b, a, zero, &arithmetic), a);
        }
    }
}

#[test]
fn kernels_meet_their_right_sample_at_phase_one() {
    let one = ONE;
    for a in VALUES {
        for b in VALUES {
            let (a, b) = (a.to_bits(), b.to_bits());
            assert_eq!(piecewise_constant(a, b, one), b);
            assert_eq!(lerp(a, b, one, &arithmetic), b);
            assert_eq!(tangentless_hermite(a, b, one, &arithmetic), b);
            assert_eq!(even_hermite(a, b, b, a, one, &arithmetic), b);
        }
    }
}

#[test]
fn single_precision_has_what_meeting_both_samples_needs() {
    let f = arithmetic;
    assert_eq!(f(Op::Sub(ONE, ZERO)), ONE);
    assert_eq!(f(Op::Sub(ONE, ONE)), ZERO);
    assert_eq!(f(Op::Sub(ZERO, ZERO)), ZERO);
    assert_eq!(f(Op::Sub(ONE, TWO)), MINUS_ONE);
    assert_eq!(f(Op::Sub(THREE, ZERO)), THREE);
    assert_eq!(f(Op::Sub(THREE, TWO)), ONE);
    assert_eq!(f(Op::Mul(ZERO, ZERO)), ZERO);
    assert_eq!(f(Op::Mul(ONE, ONE)), ONE);
    assert_eq!(f(Op::Mul(TWO, ZERO)), ZERO);
    assert_eq!(f(Op::Mul(TWO, ONE)), TWO);
    assert_eq!(f(Op::Mul(THREE, ZERO)), ZERO);
    assert_eq!(f(Op::Mul(THREE, ONE)), THREE);
    assert_eq!(f(Op::Mul(ZERO, THREE)), ZERO);
    assert_eq!(f(Op::Mul(MINUS_TWO, ZERO)), MINUS_ZERO);
    assert_eq!(f(Op::Mul(MINUS_TWO, ONE)), MINUS_TWO);
    assert_eq!(f(Op::Add(MINUS_ZERO, ZERO)), ZERO);
    assert_eq!(f(Op::Add(MINUS_TWO, THREE)), ONE);
    assert_eq!(f(Op::Add(MINUS_ZERO, ONE)), ONE);
    assert_eq!(f(Op::Add(MINUS_ONE, ONE)), ZERO);
    assert_eq!(f(Op::Add(ZERO, ZERO)), ZERO);
    assert_eq!(f(Op::Neg(ZERO)), MINUS_ZERO);
    assert_eq!(f(Op::Neg(ONE)), MINUS_ONE);
    for a in VALUES {
        for b in VALUES {
            let (a, b) = (a.to_bits(), b.to_bits());
            assert_eq!(f(Op::Mul(ONE, a)), a);
            assert_eq!(f(Op::Add(a, f(Op::Mul(ZERO, b)))), a);
            assert_eq!(f(Op::Add(f(Op::Mul(ZERO, a)), b)), b);
        }
    }
}

#[test]
fn an_infinite_sample_keeps_the_other_end_from_being_met() {
    let inf = f32::INFINITY.to_bits();
    let got = lerp(ONE, inf, ZERO, &arithmetic);
    assert!(f32::from_bits(got).is_nan());
}

#[test]
fn tangentless_hermite_is_symmetric_at_one_half() {
    // kernel(a, b, t) + kernel(b, a, 1 - t) == a + b, at the phase where the
    // weight is its own mirror image.
    for a in VALUES {
        for b in VALUES {
            for (n, d) in [(1u64, 2u64), (2, 4), (8, 16)] {
                let there = tangentless_hermite(
                    a.to_bits(),
                    b.to_bits(),
                    phase(n, d),
                    &arithmetic,
                );
                let back = tangentless_hermite(
                    b.to_bits(),
                    a.to_bits(),
                    phase(d - n, d),
                    &arithmetic,
                );
                assert_eq!(f32::from_bits(there) + f32::from_bits(back), a + b);
            }
        }
    }
}

#[test]
fn tangentless_hermite_mirrors_where_nothing_is_rounded() {
    // kernel(a, b, t) == kernel(b, a, 1 - t), on phases and samples that
    // single precision holds exactly all the way.
    for (a, b) in [(0.0f32, 16.0f32), (-8.0, 24.0), (1.0, 3.0), (5.0, 5.0)] {
        for (n, d) in [(0u64, 4u64), (1, 4), (2, 4), (3, 4), (1, 8), (5, 8)] {
            let there = tangentless_hermite(
                a.to_bits(),
                b.to_bits(),
                phase(n, d),
                &arithmetic,
            );
            let back = tangentless_hermite(
                b.to_bits(),
                a.to_bits(),
                phase(d - n, d),
                &arithmetic,
            );
            assert_eq!(f32::from_bits(there), f32::from_bits(back));
        }
    }
}

#[test]
fn every_alias_names_its_kernel() {
    for name in ["lerp", "linear", "l"] {
        assert_eq!(Kernel::from_name(name), Ok(Kernel::Linear));
    }
    for name in ["piecewise_constant", "piecewise", "piece", "p"] {
        assert_eq!(Kernel::from_name(name), Ok(Kernel::PiecewiseConstant));
    }
    for name in ["tangentless_hermite", "th"] {
        assert_eq!(Kernel::from_name(name), Ok(Kernel::TangentlessHermite));
    }
    for name in ["catmull_rom", "cat", "cr"] {
        assert_eq!(Kernel::from_name(name), Ok(Kernel::CatmullRomSpline));
    }
}

#[test]
fn aliases_ignore_case() {
    assert_eq!(Kernel::from_name("LERP"), Ok(Kernel::Linear));
    assert_eq!(Kernel::from_name("Linear"), Ok(Kernel::Linear));
    assert_eq!(Kernel::from_name("Piecewise_Constant"), Ok(Kernel::PiecewiseConstant));
    assert_eq!(Kernel::from_name("TH"), Ok(Kernel::TangentlessHermite));
    assert_eq!(Kernel::from_name("Catmull_ROM"), Ok(Kernel::CatmullRomSpline));
    assert_eq!(Kernel::from_name("cR"), Ok(Kernel::CatmullRomSpline));
}

#[test]
fn aliases_agree_with_lower_casing() {
    let known = [
        "lerp", "linear", "l", "piecewise_constant", "piecewise", "piece", "p",
        "tangentless_hermite", "th", "catmull_rom", "cat", "cr",
    ];
    let names = [
        "Lerp", "LINEAR", "\u{212A}", "piec\u{0130}", "\u{17F}", "TH", "tH", "Cat", "C\u{C5}T",
        "L", "P",
    ];
    for name in names {
        let folded = name.to_lowercase();
        assert_eq!(Kernel::from_name(name).is_ok(), known.contains(&folded.as_str()));
    }
}

#[test]
fn other_names_are_unknown() {
    let names = [
        "", "cubic", "lerp ", " lerp", "ler", "lerpp", "catmull-rom", "piecewise constant", "t",
        "c", "\u{212A}",
    ];
    for name in names {
        assert_eq!(Kernel::from_name(name), Err(UnknownKernel));
    }
}

use kzg::field::Scalar;
use kzg::roots::{get_omega, TWO_ADICITY};

fn s(x: u64) -> Scalar {
    Scalar::from_u64(x)
}

fn squared(mut x: Scalar, times: u32) -> Scalar {
    for _ in 0..times {
        x = x.mul(&x);
    }
    x
}

#[test]
fn two_adic_root_is_the_generator_to_the_odd_part() {
    // the modulus less one, shifted right by 32 bits
    let m = [
        0xffff_ffff_0000_0000u64,
        0x53bd_a402_fffe_5bfe,
        0x3339_d808_09a1_d805,
        0x73ed_a753_299d_7d48,
    ];
    let t = [
        (m[0] >> 32) | (m[1] << 32),
        (m[1] >> 32) | (m[2] << 32),
        (m[2] >> 32) | (m[3] << 32),
        m[3] >> 32,
    ];
    assert_eq!(t[0] & 1, 1);
    let mut acc = Scalar::one();
    for limb in t.iter().rev() {
        for bit in (0..64).rev() {
            acc = acc.mul(&acc);
            if (limb >> bit) & 1 == 1 {
                acc = acc.mul(&s(7));
            }
        }
    }
    assert_eq!(Scalar::two_adic_root(), acc);
}

#[test]
fn two_adic_root_has_order_two_to_the_adicity() {
    assert_eq!(TWO_ADICITY, 32);
    let root = Scalar::two_adic_root();
    assert_eq!(squared(root, 32), Scalar::one());
    assert_eq!(squared(root, 31), Scalar::one().neg());
}

#[test]
fn omega_for_four_coefficients_has_order_four() {
    let omega = get_omega(&[s(1), s(2), s(3), s(4)]);
    assert_eq!(omega, squared(Scalar::two_adic_root(), 30));
    assert_eq!(omega.pow(4), Scalar::one());
    assert_ne!(omega.pow(2), Scalar::one());
}

#[test]
fn omega_rounds_the_domain_up() {
    let omega = get_omega(&[s(1), s(2), s(3), s(4), s(5)]);
    assert_eq!(omega, squared(Scalar::two_adic_root(), 29));
    assert_eq!(omega.pow(8), Scalar::one());
    assert_ne!(omega.pow(4), Scalar::one());
    assert_eq!(get_omega(&[s(9)]), Scalar::one());
    assert_eq!(get_omega(&[s(9), s(9)]), Scalar::one().neg());
    assert_eq!(get_omega(&[s(9), s(9), s(9)]).pow(4), Scalar::one());
}

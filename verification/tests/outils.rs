use watermarking::{bin_vers_dec, dec_vers_bin, modifier_composante};

#[test]
fn octet_vers_bits_et_retour() {
    assert_eq!(dec_vers_bin(0), [0, 0, 0, 0, 0, 0, 0, 0]);
    assert_eq!(dec_vers_bin(255), [1, 1, 1, 1, 1, 1, 1, 1]);
    assert_eq!(dec_vers_bin(5), [0, 0, 0, 0, 0, 1, 0, 1]);
    assert_eq!(dec_vers_bin(128), [1, 0, 0, 0, 0, 0, 0, 0]);
    for n in 0..=255usize {
        let bits = dec_vers_bin(n);
        let mut octet = [0u8; 8];
        for i in 0..8 {
            octet[i] = bits[i] as u8;
        }
        assert_eq!(bin_vers_dec(octet) as usize, n);
    }
}

#[test]
fn bits_vers_octet() {
    assert_eq!(bin_vers_dec([0, 0, 0, 0, 0, 0, 0, 0]), 0);
    assert_eq!(bin_vers_dec([1, 0, 1, 0, 0, 1, 0, 1]), 165);
    assert_eq!(bin_vers_dec([0, 0, 0, 0, 0, 0, 0, 3]), 3);
}

#[test]
fn parite_des_composantes() {
    let mut c = 255u8;
    modifier_composante(&mut c, 1);
    assert_eq!(c, 255);
    let mut c = 255u8;
    modifier_composante(&mut c, 0);
    assert_eq!(c, 254);
    let mut c = 10u8;
    modifier_composante(&mut c, 1);
    assert_eq!(c, 11);
    let mut c = 11u8;
    modifier_composante(&mut c, 0);
    assert_eq!(c, 12);
    let mut c = 11u8;
    modifier_composante(&mut c, 1);
    assert_eq!(c, 11);
    let mut c = 0u8;
    modifier_composante(&mut c, 0);
    assert_eq!(c, 0);
    let mut c = 7u8;
    modifier_composante(&mut c, 2);
    assert_eq!(c, 7);
}

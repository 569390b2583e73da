use watermarking::{decoder, encoder, peut_decoder, peut_encoder, PixelBuffer};

fn image(width: usize, height: usize, n_channels: usize, rowstride: usize, graine: u32) -> PixelBuffer {
    let taille = (height - 1) * rowstride + width * n_channels;
    let mut octets = Vec::with_capacity(taille);
    let mut x = graine;
    for _ in 0..taille {
        x = x.wrapping_mul(1103515245).wrapping_add(12345);
        octets.push((x >> 16) as u8);
    }
    PixelBuffer::new(octets, n_channels, width, height, rowstride).unwrap()
}

fn pixel(img: &PixelBuffer, x: usize, y: usize) -> [u8; 3] {
    img.get_pixel(x, y).unwrap()
}

#[test]
fn nouveau_refuse_une_disposition_fausse() {
    assert!(PixelBuffer::new(vec![0; 14], 3, 2, 2, 8).is_some());
    assert!(PixelBuffer::new(vec![0; 15], 3, 2, 2, 8).is_none());
    assert!(PixelBuffer::new(vec![0; 14], 2, 2, 2, 8).is_none());
    assert!(PixelBuffer::new(vec![0; 10], 3, 2, 2, 5).is_none());
    assert!(PixelBuffer::new(vec![], 3, 0, 1, 0).is_none());
    assert!(PixelBuffer::new(vec![0; 16], 4, 2, 2, 8).is_some());
}

#[test]
fn lecture_et_ecriture_de_pixels() {
    let mut img = PixelBuffer::new((0..16).collect(), 4, 2, 2, 8).unwrap();
    assert_eq!(img.get_pixel(1, 1), Ok([12, 13, 14]));
    assert_eq!(img.get_pixel(3, 0), Err("Coordinates are out of the buffer !"));
    assert_eq!(img.get_pixel(0, 3), Err("Coordinates are out of the buffer !"));
    // one column past the last is let through and reads the next row
    assert_eq!(img.get_pixel(2, 0), Ok([8, 9, 10]));
    img.put_pixel(0, 1, 100, 101, 102, 7);
    assert_eq!(&img.buffer()[8..12], &[100, 101, 102, 7]);
    let mut rvb = PixelBuffer::new(vec![1; 9], 3, 3, 1, 9).unwrap();
    rvb.put_pixel(2, 0, 5, 6, 7, 8);
    assert_eq!(rvb.buffer(), &[1, 1, 1, 1, 1, 1, 5, 6, 7]);
}

#[test]
fn image_vierge() {
    // rows of six bytes padded to eight; the last row is not padded
    let v = PixelBuffer::vierge(2, 3);
    assert_eq!(v.width(), 2);
    assert_eq!(v.height(), 3);
    assert_eq!(v.n_channels(), 3);
    assert_eq!(v.rowstride(), 8);
    assert_eq!(v.buffer(), &[0u8; 22][..]);
    let w = PixelBuffer::vierge(4, 2);
    assert_eq!(w.rowstride(), 12);
    assert_eq!(w.buffer().len(), 24);
    let u = PixelBuffer::vierge(1, 1);
    assert_eq!(u.rowstride(), 4);
    assert_eq!(u.buffer().len(), 3);
}

#[test]
fn aller_retour_trois_canaux_avec_bourrage() {
    let invite = image(2, 3, 3, 8, 7);
    let hote = image(10, 8, 3, 32, 11);
    assert!(peut_encoder(&invite, &hote));
    let attendu: Vec<[u8; 3]> = (0..2).flat_map(|y| (0..2).map(move |x| (x, y))).map(|(x, y)| pixel(&invite, x, y)).collect();
    let code = encoder(invite, hote);
    assert!(peut_decoder(&code));
    let lu = decoder(code);
    assert_eq!(lu.width(), 2);
    assert_eq!(lu.height(), 3);
    assert_eq!(lu.n_channels(), 3);
    assert_eq!(lu.rowstride(), 8);
    // padding bytes and the last row stay zero
    assert_eq!(&lu.buffer()[6..8], &[0u8, 0][..]);
    assert_eq!(&lu.buffer()[16..22], &[0u8; 6][..]);
    let obtenu: Vec<[u8; 3]> = (0..2).flat_map(|y| (0..2).map(move |x| (x, y))).map(|(x, y)| pixel(&lu, x, y)).collect();
    assert_eq!(obtenu, attendu);
    // the last row is not filled
    assert_eq!(pixel(&lu, 0, 2), [0, 0, 0]);
    assert_eq!(pixel(&lu, 1, 2), [0, 0, 0]);
}

#[test]
fn aller_retour_quatre_canaux() {
    let invite = image(3, 2, 4, 12, 3);
    let hote = image(9, 9, 4, 36, 5);
    assert!(peut_encoder(&invite, &hote));
    let attendu: Vec<[u8; 3]> = (0..3).map(|x| pixel(&invite, x, 0)).collect();
    let code = encoder(invite, hote);
    let lu = decoder(code);
    assert_eq!((lu.width(), lu.height()), (3, 2));
    let obtenu: Vec<[u8; 3]> = (0..3).map(|x| pixel(&lu, x, 0)).collect();
    assert_eq!(obtenu, attendu);
}

#[test]
fn image_d_une_ligne() {
    let invite = image(4, 1, 3, 12, 9);
    let hote = image(7, 7, 3, 21, 13);
    let attendu: Vec<[u8; 3]> = (0..4).map(|x| pixel(&invite, x, 0)).collect();
    let lu = decoder(encoder(invite, hote));
    assert_eq!((lu.width(), lu.height()), (4, 1));
    let obtenu: Vec<[u8; 3]> = (0..4).map(|x| pixel(&lu, x, 0)).collect();
    assert_eq!(obtenu, attendu);
}

#[test]
fn entete_et_parites() {
    // hidden image 1 x 1: header 0, 1, 0, 1, then its three bytes
    let invite = PixelBuffer::new(vec![0xff, 0x00, 0x81], 3, 1, 1, 3).unwrap();
    let hote = PixelBuffer::new(vec![10u8; 3 * 20], 3, 20, 1, 60).unwrap();
    let code = encoder(invite, hote);
    let octets = code.buffer().to_vec();
    let bits: Vec<u8> = octets.iter().map(|o| o % 2).collect();
    let mut attendu = Vec::new();
    for octet in [0u8, 1, 0, 1, 0xff, 0x00, 0x81] {
        for i in 0..8 {
            attendu.push((octet >> (7 - i)) & 1);
        }
    }
    assert_eq!(&bits[..56], &attendu[..]);
    // 56 bits fill 18 pixels and two channels of the 19th; the rest stays
    assert_eq!(octets[56], 10);
    assert_eq!(&octets[57..], &[10u8; 3][..]);
    for (i, o) in octets[..56].iter().enumerate() {
        assert!(*o == 10 || *o == 11, "byte {} is {}", i, o);
    }
}

#[test]
fn alpha_de_l_hote_mis_a_zero() {
    let invite = PixelBuffer::new(vec![1, 2, 3], 3, 1, 1, 3).unwrap();
    let hote = PixelBuffer::new(vec![200u8; 4 * 20], 4, 20, 1, 80).unwrap();
    let code = encoder(invite, hote);
    let octets = code.buffer();
    // 56 bits: 19 pixels written, the 20th untouched
    for p in 0..19 {
        assert_eq!(octets[4 * p + 3], 0);
    }
    assert_eq!(&octets[76..80], &[200u8, 200, 200, 200]);
}

#[test]
fn capacite_insuffisante() {
    let invite = image(4, 4, 3, 12, 1);
    let petit = image(5, 5, 3, 15, 2);
    assert!(!peut_encoder(&invite, &petit));
    let assez = image(10, 14, 3, 30, 2);
    // 32 + 8 * 48 = 416 bits need 139 pixels
    assert!(peut_encoder(&invite, &assez));
    let juste = image(139, 1, 3, 417, 2);
    assert!(peut_encoder(&invite, &juste));
    let trop_juste = image(138, 1, 3, 414, 2);
    assert!(!peut_encoder(&invite, &trop_juste));
}

#[test]
fn hote_illisible() {
    // a header of width zero cannot be decoded
    let hote = PixelBuffer::new(vec![0u8; 3 * 100], 3, 10, 10, 30).unwrap();
    assert!(!peut_decoder(&hote));
    let minuscule = PixelBuffer::new(vec![1u8; 3 * 4], 3, 2, 2, 6).unwrap();
    assert!(!peut_decoder(&minuscule));
}

#[test]
fn quatre_canaux_avec_bourrage() {
    // rows of 12 bytes for two pixels of four channels: the filter keeps
    // bytes 0, 1, 2, 4, 5, 6, then 8, 13, 14, 15, 17, 18
    let octets: Vec<u8> = (0..32).map(|i| 100 + i as u8).collect();
    let invite = PixelBuffer::new(octets, 4, 2, 3, 12).unwrap();
    let hote = image(20, 20, 3, 60, 17);
    let lu = decoder(encoder(invite, hote));
    assert_eq!((lu.width(), lu.height()), (2, 3));
    assert_eq!(pixel(&lu, 0, 0), [100, 101, 102]);
    assert_eq!(pixel(&lu, 1, 0), [104, 105, 106]);
    assert_eq!(pixel(&lu, 0, 1), [108, 113, 114]);
    assert_eq!(pixel(&lu, 1, 1), [115, 117, 118]);
}

#[test]
fn hote_d_un_pixel_de_large() {
    // on a host one pixel wide the decoder reads its second pixel at
    // column 1 of row 0 and then lags one row behind
    let invite = PixelBuffer::new(vec![9, 9, 9], 3, 1, 1, 3).unwrap();
    let hote = PixelBuffer::new(vec![0u8; 3 * 30], 3, 1, 30, 3).unwrap();
    let code = encoder(invite, hote);
    // the header bits are 0000 0000 0000 0001 0000 0000 0000 0001; read
    // with pixel 1 twice, the height comes out as 0 and nothing is decodable
    assert!(!peut_decoder(&code));
}

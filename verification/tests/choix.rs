use watermarking::{avertir_taille, decision_reessai, type_image, Decision, PixelBuffer};

#[test]
fn format_de_sauvegarde() {
    assert_eq!(type_image(Some("jpg".to_string())), "jpg");
    assert_eq!(type_image(Some("bmp".to_string())), "bmp");
    assert_eq!(type_image(Some("tiff".to_string())), "tiff");
    assert_eq!(type_image(Some("gif".to_string())), "png");
    assert_eq!(type_image(Some("PNG".to_string())), "png");
    assert_eq!(type_image(Some(String::new())), "png");
    assert_eq!(type_image(None), "png");
}

#[test]
fn reponse_a_la_question() {
    assert!(matches!(decision_reessai(Some(0)), Decision::Reessayer));
    assert!(matches!(decision_reessai(None), Decision::Reessayer));
    assert!(matches!(decision_reessai(Some(1)), Decision::Abandonner));
}

#[test]
fn avertissement_de_taille() {
    let invite = PixelBuffer::new(vec![0; 3 * 6], 3, 3, 2, 9).unwrap();
    let hote = PixelBuffer::new(vec![0; 3 * 8], 3, 4, 2, 12).unwrap();
    assert!(!avertir_taille(&invite, &hote));
    let petit = PixelBuffer::new(vec![0; 3 * 7], 3, 7, 1, 21).unwrap();
    assert!(avertir_taille(&invite, &petit));
    let juste = PixelBuffer::new(vec![0; 3 * 8], 3, 8, 1, 24).unwrap();
    assert!(!avertir_taille(&invite, &juste));
}

//! Hiding one image inside the least significant bits of another.
//!
//! `outils` holds the bit-level helpers, `image` the pixel buffer model and
//! `algo` the encoder and decoder together with the laws that tie them.
mod outils;
mod image;
mod algo;
mod lois;
mod choix;

pub use outils::{
    bin_vers_dec, dec_vers_bin, modifier_composante, composante_modifiee, loi_parite_composante,
    loi_octet_vers_bits, loi_bits_vers_octet, lemma_borne_valeur, valeur_binaire, entiers_u8,
    entiers_usize, bit_de_poids, bits_octet, est_binaire,
};
pub use image::{Image, PixelBuffer, pas_rvb, taille_rvb};
pub use choix::{format_accepte, type_image, Decision, decision_reessai, avertir_taille};
pub use lois::{disposition_standard, octet_rvb, loi_octets_retenus, loi_aller_retour, loi_discretion,
    loi_encodable, loi_aller_retour_explicite,
};
pub use algo::{
    encoder, decoder, peut_encoder, peut_decoder, Filtre, filtre_initial, filtre_garde,
    filtre_suivant, etat_filtre, octets_retenus, octets_entete, octets_message, bits_message,
    octet_code, donnees_codees, hote_partiel, hote_code, image_codee, encodable, colonne_lue,
    ligne_lue, lecture_possible, bit_lu, octet_lu, hauteur_lue, largeur_lue, lignes_decodees,
    bits_lus, decodable, image_decodee,
};

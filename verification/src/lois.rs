use vstd::prelude::*;
use vstd::arithmetic::div_mod::{lemma_fundamental_div_mod, lemma_fundamental_div_mod_converse, lemma_mod_bound};
use vstd::arithmetic::mul::lemma_mul_inequality;
use vstd::arithmetic::power2::{pow2, lemma_pow2_pos};
use crate::image::{
    Image, taille_rvb, pas_rvb, lemma_ligne_positive, lemma_pixel_numero, lemma_index_borne, lemma_index_decompose,
    lemma_pixel_dans_image,
};
use crate::algo::{
    Filtre, filtre_suivant, filtre_garde, etat_filtre, octets_retenus, octets_message,
    bits_message, octet_code, hote_code, image_codee, encodable, bit_lu, octet_lu, hauteur_lue, largeur_lue, lignes_decodees, bits_lus, decodable, image_decodee,
};
use crate::outils::{
    bits_octet, composante_modifiee, entiers_u8, loi_parite_composante,
    loi_octet_vers_bits,
};

verus! {

/// The layouts on which the filter keeps the red, green and blue bytes and
/// nothing else: three channels, or four with the rows packed.
pub open spec fn disposition_standard(g: Image) -> bool {
    g.n_channels == 3 || g.rowstride == 4 * g.width
}

/// Byte `q` of the red, green and blue bytes of `g`, pixel after pixel,
/// row after row.
pub open spec fn octet_rvb(g: Image, q: int) -> u8 {
    g.composante(q / 3, q % 3)
}

/// The counters of the filter before byte `i`, on a standard layout.
spec fn etat_attendu(g: Image, f: Filtre, i: int) -> bool {
    let rs = g.rowstride as int;
    let w = g.width as int;
    let y = i / rs;
    let o = i % rs;
    if g.n_channels == 3 {
        &&& !f.saut_canal
        &&& o < 3 * w ==> !f.saut_ligne && f.compteur == o + 1
        &&& o >= 3 * w ==> f.saut_ligne && f.compteur == rs - o
    } else {
        let c = o % 4;
        &&& !f.saut_ligne
        &&& f.saut_canal == (c == 3)
        &&& f.compteur_canal == if c < 3 {
            c + 1
        } else {
            1
        }
        &&& y == 0 ==> f.compteur == o + 1
        &&& y >= 1 && o >= 1 ==> f.compteur == o
        &&& y >= 1 && o == 0 ==> f.compteur == 4 * w || f.compteur == 4 * w + 1
    }
}

/// How many bytes the filter has kept before byte `i`, on a standard layout.
spec fn compte_attendu(g: Image, i: int) -> int {
    let rs = g.rowstride as int;
    let w = g.width as int;
    let y = i / rs;
    let o = i % rs;
    if g.n_channels == 3 {
        3 * (y * w) + if o < 3 * w {
            o
        } else {
            3 * w
        }
    } else {
        3 * (y * w) + 3 * (o / 4) + if o % 4 < 3 {
            o % 4
        } else {
            3
        }
    }
}

proof fn lemma_position_suivante(rs: int, i: int)
    requires
        rs > 0,
        i >= 0,
    ensures
        0 <= i / rs,
        0 <= i % rs < rs,
        i == (i / rs) * rs + i % rs,
        i % rs + 1 < rs ==> (i + 1) / rs == i / rs && (i + 1) % rs == i % rs + 1,
        i % rs + 1 == rs ==> (i + 1) / rs == i / rs + 1 && (i + 1) % rs == 0,
{
    lemma_fundamental_div_mod(i, rs);
    lemma_mod_bound(i, rs);
    assert(rs * (i / rs) == (i / rs) * rs) by (nonlinear_arith);
    assert(0 <= i / rs) by (nonlinear_arith)
        requires
            i >= 0,
            rs > 0,
    ;
    if i % rs + 1 < rs {
        lemma_fundamental_div_mod_converse(i + 1, rs, i / rs, i % rs + 1);
    } else if i % rs + 1 == rs {
        assert((i / rs + 1) * rs == (i / rs) * rs + rs) by (nonlinear_arith);
        lemma_fundamental_div_mod_converse(i + 1, rs, i / rs + 1, 0);
    }
}

/// What the filter has done before byte `i`, on a standard layout.
spec fn filtre_attendu(g: Image, i: int) -> bool {
    let f = etat_filtre(g, i as nat);
    let r = octets_retenus(g, i as nat);
    &&& etat_attendu(g, f, i)
    &&& r.len() == compte_attendu(g, i)
    &&& forall|q: int| 0 <= q < r.len() ==> #[trigger] r[q] == octet_rvb(g, q)
}

proof fn lemma_pas_standard(g: Image, i: int)
    requires
        g.wf(),
        disposition_standard(g),
        0 <= i < g.data.len(),
        filtre_attendu(g, i),
    ensures
        filtre_attendu(g, i + 1),
{
    let rs = g.rowstride as int;
    let w = g.width as int;
    let nc = g.n_channels as int;
    let y = i / rs;
    let o = i % rs;
    let f = etat_filtre(g, i as nat);
    let f2 = etat_filtre(g, (i + 1) as nat);
    let r = octets_retenus(g, i as nat);
    let r2 = octets_retenus(g, (i + 1) as nat);
    lemma_ligne_positive(g);
    lemma_position_suivante(rs, i);
    assert(f2 == filtre_suivant(g, f));
    assert((y + 1) * w == y * w + w) by (nonlinear_arith);
    if nc == 3 {
        assert(g.width * g.n_channels == 3 * w) by (nonlinear_arith)
            requires
                nc == 3,
                w == g.width,
                nc == g.n_channels,
        ;
    } else {
        assert(g.width * g.n_channels == 4 * w) by (nonlinear_arith)
            requires
                nc == 4,
                w == g.width,
                nc == g.n_channels,
        ;
    }
    if filtre_garde(f) {
        // the byte kept is channel `o % nc` of pixel `o / nc` of row `y`
        let x = o / nc;
        let c = o % nc;
        assert(o == x * nc + c && 0 <= c < nc && 0 <= x) by {
            lemma_fundamental_div_mod(o, nc);
            assert(nc * x == x * nc) by (nonlinear_arith);
        }
        assert(o < w * nc);
        if x >= w {
            lemma_mul_inequality(w, x, nc);
        }
        assert(c < 3);
        assert(r.len() == 3 * (y * w + x) + c);
        let q = r.len() as int;
        assert(r2 == r.push(g.data[i]));
        lemma_pixel_numero(g, y * w + x, x, y);
        assert(q / 3 == y * w + x && q % 3 == c);
        assert(g.index(x, y, c) == i);
        assert(r2[q] == octet_rvb(g, q));
        assert forall|p: int| 0 <= p < r2.len() implies #[trigger] r2[p] == octet_rvb(g, p) by {
            if p < q {
                assert(r2[p] == r[p]);
            }
        }
    } else {
        assert(r2 == r);
    }
}

proof fn lemma_filtre_jusqua(g: Image, i: int)
    requires
        g.wf(),
        disposition_standard(g),
        0 <= i <= g.data.len(),
    ensures
        filtre_attendu(g, i),
    decreases i,
{
    if i > 0 {
        lemma_filtre_jusqua(g, i - 1);
        lemma_pas_standard(g, i - 1);
    } else {
        lemma_ligne_positive(g);
        lemma_fundamental_div_mod_converse(0, g.rowstride as int, 0, 0);
        assert(0 * (g.width as int) == 0) by (nonlinear_arith);
    }
}

/// On a standard layout the filter keeps the red, green and blue bytes of
/// every pixel, pixel after pixel, row after row, and nothing else.
pub proof fn loi_octets_retenus(g: Image)
    requires
        g.wf(),
        disposition_standard(g),
    ensures
        octets_retenus(g, g.data.len()).len() == 3 * g.width * g.height,
        forall|x: int, y: int, c: int|
            0 <= x < g.width && 0 <= y < g.height && 0 <= c < 3 ==> octets_retenus(
                g,
                g.data.len(),
            )[3 * (y * g.width + x) + c] == #[trigger] g.octet(x, y, c),
{
    let n = g.data.len() as int;
    let rs = g.rowstride as int;
    let w = g.width as int;
    let h = g.height as int;
    let nc = g.n_channels as int;
    lemma_filtre_jusqua(g, n);
    lemma_ligne_positive(g);
    let r = octets_retenus(g, n as nat);
    if w * nc < rs {
        lemma_fundamental_div_mod_converse(n, rs, h - 1, w * nc);
        if nc == 4 {
            assert(w * nc == 4 * w) by (nonlinear_arith)
                requires
                    nc == 4,
            ;
        }
        assert(nc == 3);
        assert(w * nc == 3 * w) by (nonlinear_arith)
            requires
                nc == 3,
        ;
        assert(3 * ((h - 1) * w) + 3 * w == 3 * w * h) by (nonlinear_arith);
    } else {
        assert(n == h * rs) by (nonlinear_arith)
            requires
                n == (h - 1) * rs + w * nc,
                w * nc == rs,
        ;
        lemma_fundamental_div_mod_converse(n, rs, h, 0);
        assert(3 * (h * w) == 3 * w * h) by (nonlinear_arith);
    }
    assert forall|x: int, y: int, c: int|
        0 <= x < g.width && 0 <= y < g.height && 0 <= c < 3 implies r[3 * (y * g.width + x) + c]
        == #[trigger] g.octet(x, y, c) by {
        let k = y * w + x;
        lemma_mul_inequality(y + 1, h, w);
        assert((y + 1) * w == y * w + w) by (nonlinear_arith);
        assert(h * w == w * h) by (nonlinear_arith);
        assert(3 * w * h == 3 * (w * h)) by (nonlinear_arith);
        lemma_mul_inequality(0, y, w);
        lemma_pixel_numero(g, k, x, y);
        assert((3 * k + c) / 3 == k && (3 * k + c) % 3 == c);
    }
}

/// Every bit that the encoder hides is a binary digit.
proof fn lemma_bits_message_binaires(g: Image, t: int)
    requires
        0 <= t < bits_message(g).len(),
    ensures
        bits_message(g)[t] == 0 || bits_message(g)[t] == 1,
{
    lemma_pow2_pos((7 - t % 8) as nat);
    lemma_mod_bound(octets_message(g)[t / 8] / (pow2((7 - t % 8) as nat) as int), 2);
}

/// On a host at least two pixels wide, the decoder reads every hidden bit
/// where the encoder put it.
proof fn lemma_bit_relu(g: Image, h: Image, t: int)
    requires
        encodable(g, h),
        h.width >= 2,
        0 <= t < bits_message(g).len(),
    ensures
        bit_lu(hote_code(h, bits_message(g)), t) == bits_message(g)[t],
{
    let m = bits_message(g);
    let h2 = hote_code(h, m);
    let w = h.width as int;
    let k = t / 3;
    let c = t % 3;
    let kmax = (m.len() + 2) / 3;
    lemma_fundamental_div_mod(k, w);
    lemma_mod_bound(k, w);
    let x = k % w;
    let y = k / w;
    assert(w * y == y * w) by (nonlinear_arith);
    assert(0 <= y) by (nonlinear_arith)
        requires
            k >= 0,
            w > 0,
            y == k / w,
    ;
    assert(k < kmax);
    lemma_pixel_dans_image(h, k, x, y);
    lemma_index_borne(h, x, y, c);
    lemma_index_decompose(h, x, y, c);
    let i = h.index(x, y, c);
    assert(h2.data[i] == octet_code(h, m, kmax as int, i));
    assert(h2.data[i] == composante_modifiee(h.data[i], m[t]));
    lemma_bits_message_binaires(g, t);
    loi_parite_composante(h.data[i], m[t]);
}

/// The bytes that the encoder hides are bytes.
proof fn lemma_octets_message_bornes(g: Image, j: int)
    requires
        g.width < 65536,
        g.height < 65536,
        0 <= j < octets_message(g).len(),
    ensures
        0 <= octets_message(g)[j] <= 255,
{
    if j >= 4 {
        assert(octets_message(g)[j] == entiers_u8(octets_retenus(g, g.data.len()))[j - 4]);
    }
}

/// The decoder reads every hidden byte back whole.
proof fn lemma_octet_relu(g: Image, h: Image, j: int)
    requires
        encodable(g, h),
        h.width >= 2,
        0 <= j < octets_message(g).len(),
    ensures
        octet_lu(hote_code(h, bits_message(g)), 8 * j) == octets_message(g)[j],
{
    let m = bits_message(g);
    let o = octets_message(g);
    let h2 = hote_code(h, m);
    assert forall|i: int| 0 <= i < 8 implies #[trigger] bit_lu(h2, 8 * j + i) == bits_octet(
        o[j],
    )[i] by {
        lemma_bit_relu(g, h, 8 * j + i);
        assert((8 * j + i) / 8 == j && (8 * j + i) % 8 == i);
    }
    assert(Seq::new(8, |i: int| bit_lu(h2, 8 * j + i)) =~= bits_octet(o[j]));
    lemma_octets_message_bornes(g, j);
    loi_octet_vers_bits(o[j]);
}

/// Round trip: on a host at least two pixels wide, the decoder reads back
/// the sides of the image that the encoder hid, and the red, green and blue
/// of every pixel of the rows it fills, where the hidden image has a
/// standard layout.
pub proof fn loi_aller_retour(g: Image, h: Image)
    requires
        encodable(g, h),
        disposition_standard(g),
        h.width >= 2,
        taille_rvb(g.width as int, g.height as int) <= isize::MAX,
    ensures
        decodable(image_codee(g, h)),
        image_decodee(image_codee(g, h)).width == g.width,
        image_decodee(image_codee(g, h)).height == g.height,
        image_decodee(image_codee(g, h)).n_channels == 3,
        forall|x: int, y: int, c: int|
            0 <= x < g.width && 0 <= y < lignes_decodees(g.height as int) && 0 <= c < 3
                ==> #[trigger] image_decodee(image_codee(g, h)).octet(x, y, c) == g.octet(x, y, c),
{
    let m = bits_message(g);
    let o = octets_message(g);
    let h2 = image_codee(g, h);
    let w = g.width as int;
    let hg = g.height as int;
    loi_octets_retenus(g);
    let n = m.len() as int;
    assert(o.len() == 4 + 3 * w * hg);
    assert(n == 32 + 24 * (w * hg)) by (nonlinear_arith)
        requires
            n == 8 * o.len(),
            o.len() == 4 + 3 * w * hg,
    ;
    // the header
    lemma_octet_relu(g, h, 0);
    lemma_octet_relu(g, h, 1);
    lemma_octet_relu(g, h, 2);
    lemma_octet_relu(g, h, 3);
    assert(hauteur_lue(h2) == hg);
    assert(largeur_lue(h2) == w);
    // the decoder runs to its end
    let l = lignes_decodees(hg);
    lemma_mul_inequality(l, hg, w);
    assert(l * w == w * l && hg * w == w * hg) by (nonlinear_arith);
    assert(24 * w * l == 24 * (w * l)) by (nonlinear_arith);
    assert(bits_lus(h2) <= n);
    assert(bits_lus(h2) / 3 < (n + 2) / 3);
    assert(h2.data.len() == h.data.len());
    assert(decodable(h2));
    // the pixels
    let d = image_decodee(h2);
    assert(d.width == w && d.n_channels == 3 && d.height == hg);
    assert(d.width * d.n_channels == 3 * w) by (nonlinear_arith)
        requires
            d.width == w,
            d.n_channels == 3,
    ;
    assert(pas_rvb(w) >= 3 * w);
    assert(d.wf());
    assert forall|x: int, y: int, c: int|
        0 <= x < g.width && 0 <= y < lignes_decodees(g.height as int) && 0 <= c < 3
            implies #[trigger] d.octet(x, y, c) == g.octet(x, y, c) by {
        let q = 3 * (y * w + x) + c;
        assert(d.wf());
        lemma_index_decompose(d, x, y, c);
        lemma_index_borne(d, x, y, c);
        assert(3 * (y * w) + (x * 3 + c) == q);
        lemma_mul_inequality(y + 1, l, w);
        assert((y + 1) * w == y * w + w) by (nonlinear_arith);
        lemma_mul_inequality(y + 1, hg, w);
        assert(3 * w * l == 3 * (w * l) && 3 * w * hg == 3 * (w * hg)) by (nonlinear_arith);
        assert(q < 3 * w * l);
        lemma_octet_relu(g, h, 4 + q);
        assert(32 + 8 * q == 8 * (4 + q));
        assert(o[4 + q] == entiers_u8(octets_retenus(g, g.data.len()))[q]);
        assert(g.octet(x, y, c) == octets_retenus(g, g.data.len())[q]);
    }
}

/// The encoder keeps the layout of the host and moves none of its red,
/// green and blue channels by more than one.
pub proof fn loi_discretion(g: Image, h: Image)
    requires
        encodable(g, h),
    ensures
        image_codee(g, h).wf(),
        image_codee(g, h).width == h.width,
        image_codee(g, h).height == h.height,
        image_codee(g, h).n_channels == h.n_channels,
        image_codee(g, h).rowstride == h.rowstride,
        forall|x: int, y: int, c: int|
            0 <= x < h.width && 0 <= y < h.height && 0 <= c < 3 ==> -1 <= #[trigger] image_codee(
                g,
                h,
            ).octet(x, y, c) - h.octet(x, y, c) <= 1,
{
    let m = bits_message(g);
    let h2 = image_codee(g, h);
    let kmax = (m.len() + 2) / 3;
    assert(h2.data.len() == h.data.len());
    assert forall|x: int, y: int, c: int|
        0 <= x < h.width && 0 <= y < h.height && 0 <= c < 3 implies -1 <= #[trigger] h2.octet(
            x,
            y,
            c,
        ) - h.octet(x, y, c) <= 1 by {
        lemma_index_borne(h, x, y, c);
        lemma_index_decompose(h, x, y, c);
        let i = h.index(x, y, c);
        let k = y * h.width + x;
        assert(h2.data[i] == octet_code(h, m, kmax as int, i));
        if k < kmax && 3 * k + c < m.len() {
            lemma_mul_inequality(0, y, h.width as int);
            lemma_bits_message_binaires(g, 3 * k + c);
            loi_parite_composante(h.data[i], m[3 * k + c]);
        }
    }
}

/// When the encoder runs to its end, said over the images alone: both well
/// formed, the hidden image's sides below 65536 (each is written as a high
/// and a low byte), and a host pixel for every three of the bits hidden,
/// eight per byte of the four header bytes and the kept bytes.
pub proof fn loi_encodable(g: Image, h: Image)
    requires
        g.wf(),
        h.wf(),
    ensures
        encodable(g, h) == (g.width < 65536 && g.height < 65536 && (8 * (4 + octets_retenus(
            g,
            g.data.len(),
        ).len()) + 2) / 3 <= h.width * h.height),
{
    assert(bits_message(g).len() == 8 * (4 + octets_retenus(g, g.data.len()).len()));
}

/// Round trip, said over the images alone: a hidden image of three channels
/// (or four with packed rows) whose sides are below 65536, in a host at least
/// two pixels wide with a pixel for every three bits hidden, is encoded, and
/// the encoded host is decoded; the decoded image has the hidden image's
/// sides, the red, green and blue of every pixel of every row but the last
/// (of the one row where there is only one), and zeros in the last row.
pub proof fn loi_aller_retour_explicite(g: Image, h: Image)
    requires
        g.wf(),
        h.wf(),
        g.width < 65536,
        g.height < 65536,
        g.n_channels == 3 || g.rowstride == 4 * g.width,
        h.width >= 2,
        (8 * (4 + 3 * g.width * g.height) + 2) / 3 <= h.width * h.height,
        (g.height - 1) * (((3 * g.width + 3) / 4) * 4) + 3 * g.width <= isize::MAX,
    ensures
        encodable(g, h),
        decodable(image_codee(g, h)),
        image_decodee(image_codee(g, h)).width == g.width,
        image_decodee(image_codee(g, h)).height == g.height,
        image_decodee(image_codee(g, h)).n_channels == 3,
        forall|x: int, y: int, c: int|
            0 <= x < g.width && 0 <= y < (if g.height >= 2 {
                g.height - 1
            } else {
                1
            }) && 0 <= c < 3 ==> #[trigger] image_decodee(image_codee(g, h)).octet(x, y, c)
                == g.octet(x, y, c),
        forall|x: int, y: int, c: int|
            0 <= x < g.width && g.height >= 2 && y == g.height - 1 && 0 <= c < 3
                ==> #[trigger] image_decodee(image_codee(g, h)).octet(x, y, c) == 0,
{
    loi_octets_retenus(g);
    loi_encodable(g, h);
    assert(3 * g.width * g.height == octets_retenus(g, g.data.len()).len());
    assert(encodable(g, h));
    loi_aller_retour(g, h);
    let h2 = image_codee(g, h);
    let d = image_decodee(h2);
    let w = g.width as int;
    let hg = g.height as int;
    assert(d.width * d.n_channels == 3 * w) by (nonlinear_arith)
        requires
            d.width == w,
            d.n_channels == 3,
    ;
    assert(pas_rvb(w) >= 3 * w);
    assert(d.wf());
    assert forall|x: int, y: int, c: int|
        0 <= x < g.width && g.height >= 2 && y == g.height - 1 && 0 <= c < 3
            implies #[trigger] d.octet(x, y, c) == 0 by {
        lemma_index_decompose(d, x, y, c);
        lemma_index_borne(d, x, y, c);
    }
}

} // verus!

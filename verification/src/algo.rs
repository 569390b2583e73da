use vstd::prelude::*;
use crate::outils::{
    bit_de_poids, bits_octet, composante_modifiee, dec_vers_bin, entiers_u8, entiers_usize,
    modifier_composante, bin_vers_dec, valeur_binaire, lemma_borne_valeur,
};
use crate::image::{
    Image, PixelBuffer, pas_rvb, taille_rvb, lemma_index_borne, lemma_index_decompose, lemma_octet_decompose,
    lemma_pixel_numero, lemma_pixel_dans_image,
};
use vstd::arithmetic::mul::lemma_mul_inequality;
use vstd::arithmetic::div_mod::lemma_fundamental_div_mod;
use vstd::arithmetic::power2::lemma2_to64;

verus! {

// ---------------------------------------------------------------------------
// What the encoder hides: a header, then the bytes that the filter keeps.
// ---------------------------------------------------------------------------

/// The four bytes written ahead of the hidden image: its height, then its
/// width, each as a high and a low byte.
pub open spec fn octets_entete(g: Image) -> Seq<int> {
    seq![
        (g.height / 256) as int,
        (g.height % 256) as int,
        (g.width / 256) as int,
        (g.width % 256) as int,
    ]
}

/// The counters with which the encoder walks the bytes of the hidden image:
/// `compteur` counts the bytes of a row, `compteur_canal` those of a pixel,
/// and the two flags say that the padding at the end of a row, or the alpha
/// channel of a pixel, is being passed over.
pub struct Filtre {
    pub compteur: int,
    pub compteur_canal: int,
    pub saut_ligne: bool,
    pub saut_canal: bool,
}

pub open spec fn filtre_initial() -> Filtre {
    Filtre { compteur: 1, compteur_canal: 1, saut_ligne: false, saut_canal: false }
}

/// A byte is kept when neither flag is up.
pub open spec fn filtre_garde(f: Filtre) -> bool {
    !f.saut_ligne && !f.saut_canal
}

/// The counters after one byte. On three channels, or four with packed
/// rows, the kept bytes are the red, green and blue ones (`loi_octets_retenus`);
/// with four channels and padded rows the count drifts after the first row.
pub open spec fn filtre_suivant(g: Image, f: Filtre) -> Filtre {
    let ligne = (g.width * g.n_channels) as int;
    let excedent = g.rowstride - ligne;
    if !f.saut_ligne && !f.saut_canal {
        let c1 = f.compteur + 1;
        let c2 = f.compteur_canal + 1;
        if c1 > ligne {
            if excedent > 0 {
                Filtre { compteur: excedent, compteur_canal: c2, saut_ligne: true, saut_canal: false }
            } else {
                Filtre { compteur: 1, compteur_canal: c2, saut_ligne: false, saut_canal: false }
            }
        } else if c2 > 3 && g.n_channels > 3 {
            Filtre {
                compteur: c1,
                compteur_canal: g.n_channels - 3,
                saut_ligne: false,
                saut_canal: true,
            }
        } else {
            Filtre { compteur: c1, compteur_canal: c2, saut_ligne: false, saut_canal: false }
        }
    } else if f.saut_ligne {
        if f.compteur - 1 == 0 {
            Filtre { compteur: 1, compteur_canal: 1, saut_ligne: false, saut_canal: f.saut_canal }
        } else {
            Filtre { compteur: f.compteur - 1, ..f }
        }
    } else {
        if f.compteur_canal - 1 <= 0 {
            Filtre { compteur: f.compteur + 1, compteur_canal: 1, saut_ligne: false, saut_canal: false }
        } else {
            Filtre { compteur: f.compteur + 1, compteur_canal: f.compteur_canal - 1, ..f }
        }
    }
}

/// The counters before byte `i`.
pub open spec fn etat_filtre(g: Image, i: nat) -> Filtre
    decreases i,
{
    if i == 0 {
        filtre_initial()
    } else {
        filtre_suivant(g, etat_filtre(g, (i - 1) as nat))
    }
}

/// The bytes among the first `i` that the filter keeps, in order.
pub open spec fn octets_retenus(g: Image, i: nat) -> Seq<u8>
    decreases i,
{
    if i == 0 {
        Seq::empty()
    } else if filtre_garde(etat_filtre(g, (i - 1) as nat)) {
        octets_retenus(g, (i - 1) as nat).push(g.data[i - 1])
    } else {
        octets_retenus(g, (i - 1) as nat)
    }
}

/// Every byte that the encoder hides: the header, then the kept bytes.
pub open spec fn octets_message(g: Image) -> Seq<int> {
    octets_entete(g) + entiers_u8(octets_retenus(g, g.data.len()))
}

/// The bits that the encoder hides, eight per byte, high bit first.
pub open spec fn bits_message(g: Image) -> Seq<int> {
    let o = octets_message(g);
    Seq::new(8 * o.len(), |t: int| bit_de_poids(o[t / 8], t % 8))
}

// ---------------------------------------------------------------------------
// What the encoder writes into the host.
// ---------------------------------------------------------------------------

/// Byte `i` of host `h` once its first `kmax` pixels carry the bits `m`,
/// three per pixel (red, green, blue): a channel that carries a bit has the
/// parity of that bit, alpha becomes zero, the rest stays.
pub open spec fn octet_code(h: Image, m: Seq<int>, kmax: int, i: int) -> u8 {
    let rs = h.rowstride as int;
    let nc = h.n_channels as int;
    let y = i / rs;
    let o = i % rs;
    let x = o / nc;
    let c = o % nc;
    let k = y * h.width + x;
    if o < h.width * nc && k < kmax {
        if c < 3 {
            if 3 * k + c < m.len() {
                composante_modifiee(h.data[i], m[3 * k + c])
            } else {
                h.data[i]
            }
        } else {
            0
        }
    } else {
        h.data[i]
    }
}

pub open spec fn donnees_codees(h: Image, m: Seq<int>, kmax: int) -> Seq<u8> {
    Seq::new(h.data.len(), |i: int| octet_code(h, m, kmax, i))
}

/// Host `h` once its first `kmax` pixels are written.
pub open spec fn hote_partiel(h: Image, m: Seq<int>, kmax: int) -> Image {
    Image { data: donnees_codees(h, m, kmax), ..h }
}

/// Host `h` carrying the bits `m`: every pixel that holds one of them is
/// written.
pub open spec fn hote_code(h: Image, m: Seq<int>) -> Image {
    hote_partiel(h, m, ((m.len() + 2) / 3) as int)
}

/// Host `h` carrying image `g`.
pub open spec fn image_codee(g: Image, h: Image) -> Image {
    hote_code(h, bits_message(g))
}

/// The inputs on which the encoder runs to its end: two images, a hidden one
/// whose sides fit in two bytes, and a host with a pixel for every three bits.
pub open spec fn encodable(g: Image, h: Image) -> bool {
    &&& g.wf()
    &&& h.wf()
    &&& g.width < 65536
    &&& g.height < 65536
    &&& (bits_message(g).len() + 2) / 3 <= h.width * h.height
}

// ---------------------------------------------------------------------------
// The filter, executed.
// ---------------------------------------------------------------------------

struct FiltreExec {
    compteur: usize,
    compteur_canal: usize,
    saut_ligne: bool,
    saut_canal: bool,
}

impl FiltreExec {
    spec fn vue(&self) -> Filtre {
        Filtre {
            compteur: self.compteur as int,
            compteur_canal: self.compteur_canal as int,
            saut_ligne: self.saut_ligne,
            saut_canal: self.saut_canal,
        }
    }
}

/// The bounds that the counters keep before byte `i`.
spec fn filtre_borne(g: Image, f: Filtre, i: int) -> bool {
    let ligne = (g.width * g.n_channels) as int;
    &&& 1 <= f.compteur
    &&& 1 <= f.compteur_canal <= i + 1
    &&& !(f.saut_ligne && f.saut_canal)
    &&& f.saut_ligne ==> f.compteur <= g.rowstride - ligne
    &&& !f.saut_ligne ==> f.compteur <= ligne + 1
    &&& f.saut_canal ==> g.n_channels == 4 && f.compteur_canal == 1 && f.compteur <= ligne
}

proof fn lemma_ligne_dans_donnees(g: Image)
    requires
        g.wf(),
    ensures
        g.width * g.n_channels <= g.data.len(),
{
    lemma_mul_inequality(0, g.height - 1, g.rowstride as int);
}

fn pas_filtre(
    f: &mut FiltreExec,
    ligne: usize,
    excedent: usize,
    n_channels: usize,
    Ghost(g): Ghost<Image>,
    Ghost(i): Ghost<int>,
) -> (garde: bool)
    requires
        g.wf(),
        ligne == g.width * g.n_channels,
        excedent == g.rowstride - ligne,
        n_channels == g.n_channels,
        0 <= i < g.data.len(),
        filtre_borne(g, old(f).vue(), i),
    ensures
        final(f).vue() == filtre_suivant(g, old(f).vue()),
        garde == filtre_garde(old(f).vue()),
        filtre_borne(g, final(f).vue(), i + 1),
{
    proof {
        lemma_ligne_dans_donnees(g);
    }
    let garde = !f.saut_ligne && !f.saut_canal;
    if garde {
        f.compteur += 1;
        f.compteur_canal += 1;
        if f.compteur > ligne {
            if excedent > 0 {
                f.saut_ligne = true;
                f.compteur = excedent;
            } else {
                f.compteur = 1;
            }
        } else if f.compteur_canal > 3 && n_channels > 3 {
            f.saut_canal = true;
            f.compteur_canal = n_channels - 3;
        }
    } else if f.saut_ligne {
        f.compteur -= 1;
        if f.compteur == 0 {
            f.saut_ligne = false;
            f.compteur = 1;
            f.compteur_canal = 1;
        }
    } else if f.saut_canal {
        f.compteur_canal -= 1;
        f.compteur += 1;
        if f.compteur_canal <= 0 {
            f.saut_canal = false;
            f.compteur_canal = 1;
        }
    }
    garde
}

// ---------------------------------------------------------------------------
// Hiding bits in the host, executed.
// ---------------------------------------------------------------------------

/// Where the next bit goes: `etat` is the channel, `(x, y)` the pixel, and
/// `rouge`, `vert`, `bleu` the pixel as it stands before it is written back.
struct Curseur {
    etat: u8,
    rouge: u8,
    vert: u8,
    bleu: u8,
    x: usize,
    y: usize,
}

/// Channel `c` of pixel `k` of `h` as written when the bits are `m`.
spec fn composante_attendue(h: Image, m: Seq<int>, k: int, x: int, y: int, c: int) -> u8 {
    if 3 * k + c < m.len() {
        composante_modifiee(h.octet(x, y, c), m[3 * k + c])
    } else {
        h.octet(x, y, c)
    }
}

/// After `j` bits: the pixels before pixel `j / 3` are written, and the
/// cursor holds pixel `j / 3` with its first `j % 3` channels changed.
spec fn curseur_ok(h0: Image, hc: Image, cur: Curseur, m: Seq<int>, j: int) -> bool {
    let k = j / 3;
    &&& h0.wf()
    &&& 0 <= j <= m.len()
    &&& hc == hote_partiel(h0, m, k)
    &&& cur.etat == j % 3
    &&& cur.x < h0.width
    &&& k == cur.y * h0.width + cur.x
    &&& j % 3 >= 1 ==> {
        &&& k < h0.width * h0.height
        &&& cur.rouge == composante_attendue(h0, m, k, cur.x as int, cur.y as int, 0)
        &&& cur.vert == if j % 3 == 2 {
            composante_attendue(h0, m, k, cur.x as int, cur.y as int, 1)
        } else {
            h0.octet(cur.x as int, cur.y as int, 1)
        }
        &&& cur.bleu == h0.octet(cur.x as int, cur.y as int, 2)
    }
}

/// Writing pixel `k` with its expected channels moves the written part of
/// the host on by one pixel.
proof fn lemma_ecrire_pixel(h0: Image, m: Seq<int>, k: int, x: int, y: int, r: u8, v: u8, b: u8)
    requires
        h0.wf(),
        0 <= x < h0.width,
        0 <= y < h0.height,
        k == y * h0.width + x,
        r == composante_attendue(h0, m, k, x, y, 0),
        v == composante_attendue(h0, m, k, x, y, 1),
        b == composante_attendue(h0, m, k, x, y, 2),
    ensures
        hote_partiel(h0, m, k).avec_pixel(x, y, r, v, b, 0) == hote_partiel(h0, m, k + 1),
{
    let avant = hote_partiel(h0, m, k);
    let apres = avant.avec_pixel(x, y, r, v, b, 0);
    let nc = h0.n_channels as int;
    lemma_index_borne(h0, x, y, nc - 1);
    let i0 = h0.index(x, y, 0);
    assert forall|c: int| 0 <= c < nc implies {
        &&& #[trigger] octet_code(h0, m, k + 1, i0 + c) == if c < 3 {
            composante_attendue(h0, m, k, x, y, c)
        } else {
            0u8
        }
        &&& 0 <= i0 + c < h0.data.len()
    } by {
        lemma_index_decompose(h0, x, y, c);
        lemma_index_borne(h0, x, y, c);
        lemma_pixel_numero(h0, k, x, y);
    }
    assert forall|i: int| 0 <= i < h0.data.len() implies #[trigger] apres.data[i]
        == donnees_codees(h0, m, k + 1)[i] by {
        if i0 <= i < i0 + nc {
            let c = i - i0;
            assert(octet_code(h0, m, k + 1, i0 + c) == if c < 3 {
                composante_attendue(h0, m, k, x, y, c)
            } else {
                0u8
            });
            assert(i == i0 + c);
        } else {
            lemma_octet_decompose(h0, i);
            let rs = h0.rowstride as int;
            let yi = i / rs;
            let o = i % rs;
            let xi = o / nc;
            let ki = yi * h0.width + xi;
            if o < h0.width * nc && ki == k {
                lemma_pixel_numero(h0, k, xi, yi);
                lemma_pixel_numero(h0, k, x, y);
                assert(i == h0.index(x, y, o % nc));
                assert(false);
            }
            let d = avant.data.update(i0, r).update(i0 + 1, v).update(i0 + 2, b);
            assert(d[i] == avant.data[i]);
            if nc == 4 {
                assert(d.update(i0 + 3, 0u8)[i] == d[i]);
            }
            assert(apres.data[i] == avant.data[i]);
            assert(octet_code(h0, m, k + 1, i) == octet_code(h0, m, k, i));
        }
    }
    assert(apres.data =~= donnees_codees(h0, m, k + 1));
}

fn inserer_bit(
    hote: &mut PixelBuffer,
    cur: &mut Curseur,
    bit: usize,
    Ghost(h0): Ghost<Image>,
    Ghost(m): Ghost<Seq<int>>,
    Ghost(j): Ghost<int>,
)
    requires
        curseur_ok(h0, old(hote)@, *old(cur), m, j),
        j < m.len(),
        bit == m[j],
        j / 3 < h0.width * h0.height,
    ensures
        curseur_ok(h0, final(hote)@, *final(cur), m, j + 1),
{
    let ghost k = j / 3;
    proof {
        lemma_pixel_dans_image(h0, k, cur.x as int, cur.y as int);
        lemma_index_borne(h0, cur.x as int, cur.y as int, 2);
    }
    if cur.etat == 0 {
        proof {
            assert forall|c: int| 0 <= c < 3 implies #[trigger] hote@.octet(
                cur.x as int,
                cur.y as int,
                c,
            ) == h0.octet(cur.x as int, cur.y as int, c) by {
                lemma_index_decompose(h0, cur.x as int, cur.y as int, c);
                lemma_index_borne(h0, cur.x as int, cur.y as int, c);
            }
        }
        let pixel = hote.get_pixel(cur.x, cur.y).unwrap();
        let mut rouge = pixel[0];
        modifier_composante(&mut rouge, bit);
        cur.rouge = rouge;
        cur.vert = pixel[1];
        cur.bleu = pixel[2];
        cur.etat = 1;
    } else if cur.etat == 1 {
        let mut vert = cur.vert;
        modifier_composante(&mut vert, bit);
        cur.vert = vert;
        cur.etat = 2;
    } else {
        let mut bleu = cur.bleu;
        modifier_composante(&mut bleu, bit);
        cur.bleu = bleu;
        cur.etat = 0;
        proof {
            lemma_ecrire_pixel(h0, m, k, cur.x as int, cur.y as int, cur.rouge, cur.vert, cur.bleu);
        }
        let largeur = hote.width();
        proof {
            crate::image::lemma_dimensions_bornees(h0);
        }
        hote.put_pixel(cur.x, cur.y, cur.rouge, cur.vert, cur.bleu, 0);
        let ghost (x0, y0) = (cur.x as int, cur.y as int);
        cur.x += 1;
        if cur.x > largeur - 1 {
            cur.y += 1;
            cur.x = 0;
            proof {
                assert((y0 + 1) * h0.width == y0 * h0.width + h0.width) by (nonlinear_arith);
            }
        }
    }
}

fn terminer(hote: &mut PixelBuffer, cur: &Curseur, Ghost(h0): Ghost<Image>, Ghost(m): Ghost<Seq<int>>)
    requires
        curseur_ok(h0, old(hote)@, *cur, m, m.len() as int),
    ensures
        final(hote)@ == hote_code(h0, m),
{
    let ghost j = m.len() as int;
    let ghost k = j / 3;
    if cur.etat != 0 {
        proof {
            lemma_pixel_dans_image(h0, k, cur.x as int, cur.y as int);
            lemma_index_borne(h0, cur.x as int, cur.y as int, 2);
            lemma_ecrire_pixel(h0, m, k, cur.x as int, cur.y as int, cur.rouge, cur.vert, cur.bleu);
        }
        hote.put_pixel(cur.x, cur.y, cur.rouge, cur.vert, cur.bleu, 0);
    }
}

proof fn lemma_retenus_prefixe(g: Image, i: nat, n: nat)
    requires
        i <= n,
    ensures
        octets_retenus(g, i).len() <= octets_retenus(g, n).len(),
        forall|q: int|
            0 <= q < octets_retenus(g, i).len() ==> #[trigger] octets_retenus(g, n)[q]
                == octets_retenus(g, i)[q],
    decreases n - i,
{
    if i < n {
        lemma_retenus_prefixe(g, i, (n - 1) as nat);
    }
}

proof fn lemma_hote_intact(h0: Image, m: Seq<int>)
    requires
        h0.wf(),
    ensures
        hote_partiel(h0, m, 0) == h0,
{
    assert forall|i: int| 0 <= i < h0.data.len() implies #[trigger] donnees_codees(h0, m, 0)[i]
        == h0.data[i] by {
        lemma_octet_decompose(h0, i);
        let rs = h0.rowstride as int;
        let nc = h0.n_channels as int;
        let o = i % rs;
        lemma_mul_inequality(0, i / rs, h0.width as int);
        if o < h0.width * nc {
            assert(o / nc >= 0);
        }
    }
    assert(donnees_codees(h0, m, 0) =~= h0.data);
}

proof fn lemma_capacite(j: int, l: int, p: int)
    requires
        0 <= j < l,
        (l + 2) / 3 <= p,
    ensures
        j / 3 < p,
{
}

/// Hides image `image_invite` in the host `image_hote`: its height and width
/// as two bytes each, then the bytes of its pixels that the filter keeps,
/// bit by bit, in the parity of the red, green and blue channels of the host,
/// pixel after pixel, row after row. Each host pixel that receives a bit is
/// written back with alpha zero.
pub fn encoder(image_invite: PixelBuffer, image_hote: PixelBuffer) -> (r: PixelBuffer)
    requires
        encodable(image_invite@, image_hote@),
    ensures
        r@ == image_codee(image_invite@, image_hote@),
        r@.wf(),
{
    let ghost g = image_invite@;
    let ghost h0 = image_hote@;
    let ghost m = bits_message(g);
    let ghost tout = octets_retenus(g, g.data.len());
    let ghost pixels = h0.width * h0.height;
    proof {
        lemma_hote_intact(h0, m);
        assert(m.len() == 8 * (4 + tout.len()));
    }
    let mut hote = image_hote;
    let mut cur = Curseur { etat: 0, rouge: 0, vert: 0, bleu: 0, x: 0, y: 0 };
    let ghost mut j: int = 0;
    let largeur = image_invite.width();
    let hauteur = image_invite.height();
    let entete: [usize; 4] = [hauteur / 256, hauteur % 256, largeur / 256, largeur % 256];
    let mut n: usize = 0;
    proof {
        assert(hote@ == hote_partiel(h0, m, 0));
        assert(0 * h0.width == 0) by (nonlinear_arith);
    }
    while n < 4
        invariant
            0 <= n <= 4,
            j == 8 * n,
            g == image_invite@,
            g.wf(),
            g.width < 65536,
            g.height < 65536,
            largeur == g.width,
            hauteur == g.height,
            entete@ == seq![hauteur / 256, hauteur % 256, largeur / 256, largeur % 256],
            m == bits_message(g),
            m.len() == 8 * (4 + tout.len()),
            (m.len() + 2) / 3 <= pixels,
            pixels == h0.width * h0.height,
            curseur_ok(h0, hote@, cur, m, j),
        decreases 4 - n,
    {
        let bits = dec_vers_bin(entete[n]);
        let mut b: usize = 0;
        while b < 8
            invariant
                0 <= n < 4,
                0 <= b <= 8,
                j == 8 * n + b,
                g == image_invite@,
                entete@ == seq![hauteur / 256, hauteur % 256, largeur / 256, largeur % 256],
                largeur == g.width,
                hauteur == g.height,
                entiers_usize(bits@) == bits_octet(entete@[n as int] as int),
                m == bits_message(g),
                m.len() == 8 * (4 + tout.len()),
                (m.len() + 2) / 3 <= pixels,
                pixels == h0.width * h0.height,
                curseur_ok(h0, hote@, cur, m, j),
            decreases 8 - b,
        {
            proof {
                assert(j / 8 == n && j % 8 == b);
                assert(octets_message(g)[n as int] == octets_entete(g)[n as int]);
                assert(bits@[b as int] as int == entiers_usize(bits@)[b as int]);
                lemma_capacite(j, m.len() as int, pixels as int);
            }
            inserer_bit(&mut hote, &mut cur, bits[b], Ghost(h0), Ghost(m), Ghost(j));
            proof {
                j = j + 1;
            }
            b += 1;
        }
        n += 1;
    }
    proof {
        lemma_ligne_dans_donnees(g);
    }
    let n_channels = image_invite.n_channels();
    let ligne = largeur * n_channels;
    let excedent = image_invite.rowstride() - ligne;
    let mut filtre = FiltreExec { compteur: 1, compteur_canal: 1, saut_ligne: false, saut_canal: false };
    let donnees = image_invite.buffer();
    let mut i: usize = 0;
    while i < donnees.len()
        invariant
            0 <= i <= donnees@.len(),
            donnees@ == g.data,
            g == image_invite@,
            g.wf(),
            ligne == g.width * g.n_channels,
            excedent == g.rowstride - ligne,
            n_channels == g.n_channels,
            filtre.vue() == etat_filtre(g, i as nat),
            filtre_borne(g, filtre.vue(), i as int),
            j == 8 * (4 + octets_retenus(g, i as nat).len()),
            tout == octets_retenus(g, g.data.len()),
            m == bits_message(g),
            m.len() == 8 * (4 + tout.len()),
            (m.len() + 2) / 3 <= pixels,
            pixels == h0.width * h0.height,
            curseur_ok(h0, hote@, cur, m, j),
        decreases donnees@.len() - i,
    {
        let octet = donnees[i];
        let garde = pas_filtre(&mut filtre, ligne, excedent, n_channels, Ghost(g), Ghost(i as int));
        if garde {
            let ghost q = octets_retenus(g, i as nat).len() as int;
            proof {
                lemma_retenus_prefixe(g, (i + 1) as nat, g.data.len());
                assert(octets_retenus(g, (i + 1) as nat)[q] == octet);
                assert(tout[q] == octet);
                assert(octets_message(g)[4 + q] == octet as int);
            }
            let bits = dec_vers_bin(octet as usize);
            let mut b: usize = 0;
            while b < 8
                invariant
                    0 <= b <= 8,
                    0 <= q < tout.len(),
                    j == 8 * (4 + q) + b,
                    octets_message(g)[4 + q] == octet as int,
                    entiers_usize(bits@) == bits_octet(octet as int),
                    m == bits_message(g),
                    m.len() == 8 * (4 + tout.len()),
                    (m.len() + 2) / 3 <= pixels,
                    pixels == h0.width * h0.height,
                    curseur_ok(h0, hote@, cur, m, j),
                decreases 8 - b,
            {
                proof {
                    assert(j / 8 == 4 + q && j % 8 == b);
                    assert(bits@[b as int] as int == entiers_usize(bits@)[b as int]);
                    lemma_capacite(j, m.len() as int, pixels as int);
                }
                inserer_bit(&mut hote, &mut cur, bits[b], Ghost(h0), Ghost(m), Ghost(j));
                proof {
                    j = j + 1;
                }
                b += 1;
            }
        }
        i += 1;
    }
    proof {
        assert(i == g.data.len());
    }
    terminer(&mut hote, &cur, Ghost(h0), Ghost(m));
    proof {
        assert(hote@.data.len() == h0.data.len());
    }
    hote
}

// ---------------------------------------------------------------------------
// What the decoder reads.
// ---------------------------------------------------------------------------

/// Column of the `k`-th pixel that the decoder reads. It reads row by row,
/// except that on a host one pixel wide its second read is at column 1 of
/// row 0, and its later reads lag one row behind.
pub open spec fn colonne_lue(h: Image, k: int) -> int {
    if h.width == 1 && k >= 1 {
        if k == 1 {
            1
        } else {
            0
        }
    } else {
        k % (h.width as int)
    }
}

/// Row of the `k`-th pixel that the decoder reads (see `colonne_lue`).
pub open spec fn ligne_lue(h: Image, k: int) -> int {
    if h.width == 1 && k >= 1 {
        if k == 1 {
            0
        } else {
            k - 1
        }
    } else {
        k / (h.width as int)
    }
}

/// The pixels up to the `kmax`-th read can be read from `h`.
pub open spec fn lecture_possible(h: Image, kmax: int) -> bool {
    if h.width >= 2 {
        kmax < h.width * h.height
    } else {
        kmax == 0 || (h.height >= 2 && kmax <= h.height)
    }
}

/// Bit `t` that the decoder reads: the parity of channel `t % 3` of its
/// `t / 3`-th pixel.
pub open spec fn bit_lu(h: Image, t: int) -> int {
    (h.octet(colonne_lue(h, t / 3), ligne_lue(h, t / 3), t % 3) % 2) as int
}

/// The byte made of bits `t` to `t + 7`, high bit first.
pub open spec fn octet_lu(h: Image, t: int) -> int {
    valeur_binaire(Seq::new(8, |i: int| bit_lu(h, t + i)))
}

/// Height of the hidden image, as its header gives it.
pub open spec fn hauteur_lue(h: Image) -> int {
    octet_lu(h, 0) * 256 + octet_lu(h, 8)
}

/// Width of the hidden image, as its header gives it.
pub open spec fn largeur_lue(h: Image) -> int {
    octet_lu(h, 16) * 256 + octet_lu(h, 24)
}

/// The rows that the decoder fills: all but the last, and at least one.
pub open spec fn lignes_decodees(hauteur: int) -> int {
    if hauteur >= 2 {
        hauteur - 1
    } else {
        1
    }
}

/// The bits that the decoder reads: the header and three bytes per pixel of
/// the rows it fills.
pub open spec fn bits_lus(h: Image) -> int {
    32 + 24 * largeur_lue(h) * lignes_decodees(hauteur_lue(h))
}

/// The inputs on which the decoder runs to its end: the header gives sides
/// of at least one pixel and a buffer that can be allocated, and every pixel
/// that the decoder reads lies in the host.
pub open spec fn decodable(h: Image) -> bool {
    &&& h.wf()
    &&& largeur_lue(h) >= 1
    &&& hauteur_lue(h) >= 1
    &&& taille_rvb(largeur_lue(h), hauteur_lue(h)) <= isize::MAX
    &&& lecture_possible(h, bits_lus(h) / 3)
}

/// The image that the decoder gives back: as wide and high as the header
/// says, three channels, rows padded to a multiple of four bytes; the pixels
/// of the rows it fills are the bytes read after the header, three per
/// pixel, row after row; every other byte is zero.
pub open spec fn image_decodee(h: Image) -> Image {
    let w = largeur_lue(h);
    let hh = hauteur_lue(h);
    let rs = pas_rvb(w);
    Image {
        data: Seq::new(
            taille_rvb(w, hh) as nat,
            |i: int|
                {
                    let y = i / rs;
                    let o = i % rs;
                    if o < 3 * w && y < lignes_decodees(hh) {
                        octet_lu(h, 32 + 8 * (3 * (y * w) + o)) as u8
                    } else {
                        0u8
                    }
                },
        ),
        n_channels: 3,
        width: w as nat,
        height: hh as nat,
        rowstride: rs as nat,
    }
}

// ---------------------------------------------------------------------------
// Reading bits, executed.
// ---------------------------------------------------------------------------

/// The pixel whose channels are being read, and where the next one is.
struct Lecteur {
    etat: u8,
    rouge: u8,
    vert: u8,
    bleu: u8,
    x: usize,
    y: usize,
}

spec fn lecteur_ok(h: Image, lec: Lecteur, t: int) -> bool {
    let k = t / 3;
    &&& h.wf()
    &&& 0 <= t
    &&& lec.etat == t % 3
    &&& lec.x == colonne_lue(h, k + 1)
    &&& lec.y == ligne_lue(h, k + 1)
    &&& lec.rouge == h.octet(colonne_lue(h, k), ligne_lue(h, k), 0)
    &&& lec.vert == h.octet(colonne_lue(h, k), ligne_lue(h, k), 1)
    &&& lec.bleu == h.octet(colonne_lue(h, k), ligne_lue(h, k), 2)
}

proof fn lemma_lecture_monotone(h: Image, k1: int, k2: int)
    requires
        0 <= k1 <= k2,
        lecture_possible(h, k2),
    ensures
        lecture_possible(h, k1),
{
}

/// On a host one pixel wide, the second read (column 1 of row 0) and the
/// later ones (column 0, one row behind) lie in the buffer.
proof fn lemma_pixel_lisible_etroit(h: Image, k: int)
    requires
        h.wf(),
        h.width == 1,
        1 <= k <= h.height,
        h.height >= 2,
    ensures
        k == 1 ==> h.index(1, 0, 2) < h.data.len(),
        k >= 2 ==> 0 <= k - 1 < h.height && 0 <= h.index(0, k - 1, 0) && h.index(0, k - 1, 2)
            < h.data.len(),
{
    if k == 1 {
        lemma_index_borne(h, 0, 1, 2);
        assert(h.index(1, 0, 2) <= h.index(0, 1, 2)) by (nonlinear_arith)
            requires
                h.width * h.n_channels <= h.rowstride,
                h.width == 1,
        ;
    } else {
        lemma_index_borne(h, 0, k - 1, 2);
        lemma_index_borne(h, 0, k - 1, 0);
    }
}

/// A read made row by row lies in the buffer.
proof fn lemma_pixel_lisible_ligne(h: Image, k: int)
    requires
        h.wf(),
        0 <= k < h.width * h.height,
    ensures
        0 <= k % (h.width as int) < h.width,
        0 <= k / (h.width as int) < h.height,
        0 <= h.index(k % (h.width as int), k / (h.width as int), 0),
        h.index(k % (h.width as int), k / (h.width as int), 2) < h.data.len(),
{
    let w = h.width as int;
    crate::image::lemma_division_pixel(w, k);
    let x = k % w;
    let y = k / w;
    lemma_pixel_dans_image(h, k, x, y);
    lemma_index_borne(h, x, y, 2);
    lemma_index_borne(h, x, y, 0);
}

/// The `k`-th read pixel lies where `get_pixel` reads without failing.
#[verifier::spinoff_prover]
proof fn lemma_pixel_lisible(h: Image, k: int)
    requires
        h.wf(),
        0 <= k,
        lecture_possible(h, k),
    ensures
        0 <= colonne_lue(h, k) <= h.width,
        0 <= ligne_lue(h, k) < h.height,
        h.index(colonne_lue(h, k), ligne_lue(h, k), 2) < h.data.len(),
        0 <= h.index(colonne_lue(h, k), ligne_lue(h, k), 0),
{
    if h.width == 1 && k >= 1 {
        lemma_pixel_lisible_etroit(h, k);
    } else if k == 0 {
        lemma_index_borne(h, 0, 0, 2);
        lemma_index_borne(h, 0, 0, 0);
        crate::image::lemma_division_pixel(h.width as int, 0);
    } else {
        lemma_pixel_lisible_ligne(h, k);
    }
}

/// The decoder moves from its `k`-th read pixel to the next one column to
/// the right, or to the start of the next row.
proof fn lemma_avance(h: Image, k: int)
    requires
        h.wf(),
        1 <= k,
    ensures
        colonne_lue(h, k) + 1 > h.width - 1 ==> colonne_lue(h, k + 1) == 0 && ligne_lue(h, k + 1)
            == ligne_lue(h, k) + 1,
        colonne_lue(h, k) + 1 <= h.width - 1 ==> colonne_lue(h, k + 1) == colonne_lue(h, k) + 1
            && ligne_lue(h, k + 1) == ligne_lue(h, k),
{
    let w = h.width as int;
    if w >= 2 {
        lemma_fundamental_div_mod(k, w);
        let x = k % w;
        let y = k / w;
        assert(w * y == y * w) by (nonlinear_arith);
        if x + 1 > w - 1 {
            assert((y + 1) * w == y * w + w) by (nonlinear_arith);
            lemma_pixel_numero(h, k + 1, 0, y + 1);
        } else {
            lemma_pixel_numero(h, k + 1, x + 1, y);
        }
    }
}

fn lire_bit(h: &PixelBuffer, lec: &mut Lecteur, Ghost(t): Ghost<int>) -> (bit: u8)
    requires
        lecteur_ok(h@, *old(lec), t),
        t % 3 == 2 ==> lecture_possible(h@, t / 3 + 1),
    ensures
        lecteur_ok(h@, *final(lec), t + 1),
        bit == bit_lu(h@, t),
        bit == 0 || bit == 1,
{
    let ghost k = t / 3;
    if lec.etat == 0 {
        lec.etat = 1;
        lec.rouge % 2
    } else if lec.etat == 1 {
        lec.etat = 2;
        lec.vert % 2
    } else {
        let bit = lec.bleu % 2;
        proof {
            lemma_pixel_lisible(h@, k + 1);
            lemma_avance(h@, k + 1);
        }
        let pixel = h.get_pixel(lec.x, lec.y).unwrap();
        lec.rouge = pixel[0];
        lec.vert = pixel[1];
        lec.bleu = pixel[2];
        let largeur = h.width();
        proof {
            crate::image::lemma_dimensions_bornees(h@);
        }
        lec.x += 1;
        if lec.x > largeur - 1 {
            lec.y += 1;
            lec.x = 0;
        }
        lec.etat = 0;
        bit
    }
}

fn lire_octet(h: &PixelBuffer, lec: &mut Lecteur, Ghost(t): Ghost<int>) -> (octet: u8)
    requires
        lecteur_ok(h@, *old(lec), t),
        lecture_possible(h@, (t + 8) / 3),
    ensures
        lecteur_ok(h@, *final(lec), t + 8),
        octet == octet_lu(h@, t),
{
    let mut bits = [0u8; 8];
    let mut i: usize = 0;
    while i < 8
        invariant
            0 <= i <= 8,
            lecteur_ok(h@, *lec, t + i),
            lecture_possible(h@, (t + 8) / 3),
            forall|p: int| 0 <= p < i ==> bits@[p] as int == bit_lu(h@, t + p),
            forall|p: int| 0 <= p < i ==> bits@[p] == 0 || bits@[p] == 1,
        decreases 8 - i,
    {
        proof {
            if (t + i) % 3 == 2 {
                lemma_lecture_monotone(h@, (t + i) / 3 + 1, (t + 8) / 3);
            }
        }
        let bit = lire_bit(h, lec, Ghost(t + i));
        bits[i] = bit;
        i += 1;
    }
    proof {
        let s = Seq::new(8, |p: int| bit_lu(h@, t + p));
        assert(entiers_u8(bits@) =~= s);
        lemma_borne_valeur(s);
        lemma2_to64();
    }
    bin_vers_dec(bits)
}

/// Byte `i` of the output of the decoder once its first `p` pixels are
/// written.
spec fn octet_sortie(h: Image, w: int, p: int, i: int) -> u8 {
    let rs = pas_rvb(w);
    let y = i / rs;
    let o = i % rs;
    if o < 3 * w && 3 * (y * w) + o < 3 * p {
        octet_lu(h, 32 + 8 * (3 * (y * w) + o)) as u8
    } else {
        0u8
    }
}

/// The output of the decoder once its first `p` pixels are written.
spec fn sortie_partielle(h: Image, w: int, hh: int, p: int) -> Image {
    Image {
        data: Seq::new(taille_rvb(w, hh) as nat, |i: int| octet_sortie(h, w, p, i)),
        n_channels: 3,
        width: w as nat,
        height: hh as nat,
        rowstride: pas_rvb(w) as nat,
    }
}

proof fn lemma_sortie_vide(h: Image, w: int, hh: int)
    requires
        w >= 1,
        hh >= 1,
        taille_rvb(w, hh) <= isize::MAX,
    ensures
        sortie_partielle(h, w, hh, 0) == Image::vierge(w as nat, hh as nat),
        sortie_partielle(h, w, hh, 0).wf(),
{
    let img = sortie_partielle(h, w, hh, 0);
    assert(img.wf());
    assert forall|i: int| 0 <= i < img.data.len() implies #[trigger] img.data[i] == 0u8 by {
        lemma_octet_decompose(img, i);
        lemma_mul_inequality(0, i / pas_rvb(w), w);
    }
    assert(img.data =~= Image::vierge(w as nat, hh as nat).data);
}

proof fn lemma_sortie_pixel(h: Image, w: int, hh: int, dx: int, dy: int, p: int, r: u8, v: u8, b: u8)
    requires
        w >= 1,
        hh >= 1,
        taille_rvb(w, hh) <= isize::MAX,
        0 <= dx < w,
        0 <= dy < hh,
        p == dy * w + dx,
        r == octet_lu(h, 32 + 24 * p) as u8,
        v == octet_lu(h, 32 + 24 * p + 8) as u8,
        b == octet_lu(h, 32 + 24 * p + 16) as u8,
    ensures
        sortie_partielle(h, w, hh, p).avec_pixel(dx, dy, r, v, b, 0) == sortie_partielle(
            h,
            w,
            hh,
            p + 1,
        ),
        sortie_partielle(h, w, hh, p + 1).wf(),
{
    let img = sortie_partielle(h, w, hh, p);
    let apres = img.avec_pixel(dx, dy, r, v, b, 0);
    let cible = sortie_partielle(h, w, hh, p + 1);
    let rs = pas_rvb(w);
    assert(img.wf());
    assert(cible.wf());
    lemma_index_borne(img, dx, dy, 2);
    let i0 = img.index(dx, dy, 0);
    assert forall|c: int| 0 <= c < 3 implies #[trigger] octet_sortie(h, w, p + 1, i0 + c) == if c
        == 0 {
        r
    } else if c == 1 {
        v
    } else {
        b
    } by {
        lemma_index_decompose(img, dx, dy, c);
        assert(i0 + c == img.index(dx, dy, c));
        assert(3 * (dy * w) + dx * 3 + c == 3 * p + c);
        assert(32 + 8 * (3 * p + c) == 32 + 24 * p + 8 * c);
    }
    assert forall|i: int| 0 <= i < cible.data.len() implies #[trigger] apres.data[i]
        == cible.data[i] by {
        if i0 <= i < i0 + 3 {
            let c = i - i0;
            assert(octet_sortie(h, w, p + 1, i0 + c) == if c == 0 {
                r
            } else if c == 1 {
                v
            } else {
                b
            });
            assert(i == i0 + c);
        } else {
            lemma_octet_decompose(img, i);
            let y = i / rs;
            let o = i % rs;
            if o < 3 * w {
                let x = o / 3;
                if y * w + x == p {
                    lemma_pixel_numero(img, p, x, y);
                    lemma_pixel_numero(img, p, dx, dy);
                    assert(i == img.index(dx, dy, o % 3));
                    assert(false);
                }
            }
            assert(octet_sortie(h, w, p + 1, i) == octet_sortie(h, w, p, i));
        }
    }
    assert(apres.data =~= cible.data);
}

proof fn lemma_sortie_complete(h: Image)
    requires
        largeur_lue(h) >= 1,
        hauteur_lue(h) >= 1,
    ensures
        sortie_partielle(
            h,
            largeur_lue(h),
            hauteur_lue(h),
            lignes_decodees(hauteur_lue(h)) * largeur_lue(h),
        ) == image_decodee(h),
{
    let w = largeur_lue(h);
    let hh = hauteur_lue(h);
    let l = lignes_decodees(hh);
    let rs = pas_rvb(w);
    let a = sortie_partielle(h, w, hh, l * w);
    let d = image_decodee(h);
    assert forall|i: int| 0 <= i < d.data.len() implies #[trigger] a.data[i] == d.data[i] by {
        let y = i / rs;
        let o = i % rs;
        if y < l {
            lemma_mul_inequality(y + 1, l, w);
            assert((y + 1) * w == y * w + w) by (nonlinear_arith);
        } else {
            lemma_mul_inequality(l, y, w);
        }
    }
    assert(a.data =~= d.data);
}

/// Reads the header: the width and the height of the hidden image, and the
/// reader placed after it.
fn lire_entete(hote: &PixelBuffer) -> (r: (usize, usize, Lecteur))
    requires
        hote@.wf(),
        lecture_possible(hote@, 10),
    ensures
        r.0 == largeur_lue(hote@),
        r.1 == hauteur_lue(hote@),
        r.0 <= 65535,
        r.1 <= 65535,
        lecteur_ok(hote@, r.2, 32),
{
    let ghost h = hote@;
    proof {
        lemma_pixel_lisible(h, 0);
        if h.width >= 2 {
            lemma_pixel_numero(h, 0, 0, 0);
            lemma_pixel_numero(h, 1, 1, 0);
        }
        assert(0 * h.width == 0) by (nonlinear_arith);
    }
    let pixel = hote.get_pixel(0, 0).expect("Erreur innatendue !");
    let mut lec = Lecteur { etat: 0, rouge: pixel[0], vert: pixel[1], bleu: pixel[2], x: 1, y: 0 };
    let taille0 = lire_octet(hote, &mut lec, Ghost(0));
    let taille1 = lire_octet(hote, &mut lec, Ghost(8));
    let taille2 = lire_octet(hote, &mut lec, Ghost(16));
    let taille3 = lire_octet(hote, &mut lec, Ghost(24));
    let largeur = (taille2 as usize) * 256 + (taille3 as usize);
    let hauteur = (taille0 as usize) * 256 + (taille1 as usize);
    (largeur, hauteur, lec)
}

/// Reads back an image hidden by `encoder`: the header gives its height and
/// width, then every three bytes read make a pixel, row after row, until
/// all rows but the last are filled (at least one row is).
pub fn decoder(image_a_decrypter: PixelBuffer) -> (r: PixelBuffer)
    requires
        decodable(image_a_decrypter@),
    ensures
        r@ == image_decodee(image_a_decrypter@),
        r@.wf(),
{
    let ghost h = image_a_decrypter@;
    let ghost b_total = bits_lus(h);
    let hote = &image_a_decrypter;
    proof {
        lemma_mul_inequality(1, lignes_decodees(hauteur_lue(h)), largeur_lue(h));
        assert(24 * largeur_lue(h) * lignes_decodees(hauteur_lue(h)) == 24 * (lignes_decodees(
            hauteur_lue(h),
        ) * largeur_lue(h))) by (nonlinear_arith);
        assert(b_total >= 56);
        lemma_lecture_monotone(h, 10, b_total / 3);
    }
    let (largeur, hauteur, mut lec) = lire_entete(hote);
    let mut sortie = PixelBuffer::vierge(largeur, hauteur);
    let ghost lignes = lignes_decodees(hauteur as int);
    let ghost w = largeur as int;
    let ghost hh = hauteur as int;
    proof {
        lemma_sortie_vide(h, w, hh);
    }
    let mut dx: usize = 0;
    let mut dy: usize = 0;
    let ghost mut p: int = 0;
    loop
        invariant_except_break
            0 <= dy < lignes,
        invariant
            hote@ == h,
            h.wf(),
            b_total == bits_lus(h),
            lecture_possible(h, b_total / 3),
            w == largeur_lue(h),
            hh == hauteur_lue(h),
            largeur == w,
            hauteur == hh,
            w >= 1,
            hh >= 1,
            lignes == lignes_decodees(hh),
            b_total == 32 + 24 * w * lignes,
            0 <= dx < largeur,
            p == dy * w + dx,
            0 <= dy <= lignes,
            lecteur_ok(h, lec, 32 + 24 * p),
            sortie@ == sortie_partielle(h, w, hh, p),
            sortie@.wf(),
        ensures
            p == lignes * w,
        decreases w * lignes - p,
    {
        proof {
            lemma_mul_inequality(dy + 1, lignes, w);
            assert((dy + 1) * w == dy * w + w) by (nonlinear_arith);
            assert(w * lignes == lignes * w) by (nonlinear_arith);
            assert(24 * w * lignes == 24 * (w * lignes)) by (nonlinear_arith);
            lemma_lecture_monotone(h, (32 + 24 * p + 24) / 3, b_total / 3);
            lemma_lecture_monotone(h, (32 + 24 * p + 16) / 3, b_total / 3);
            lemma_lecture_monotone(h, (32 + 24 * p + 8) / 3, b_total / 3);
        }
        let rouge = lire_octet(hote, &mut lec, Ghost(32 + 24 * p));
        let vert = lire_octet(hote, &mut lec, Ghost(32 + 24 * p + 8));
        let bleu = lire_octet(hote, &mut lec, Ghost(32 + 24 * p + 16));
        proof {
            lemma_sortie_pixel(h, w, hh, dx as int, dy as int, p, rouge, vert, bleu);
        }
        sortie.put_pixel(dx, dy, rouge, vert, bleu, 0);
        let ghost dy0 = dy as int;
        dx += 1;
        proof {
            p = p + 1;
        }
        if dx > largeur - 1 {
            dy += 1;
            dx = 0;
            proof {
                assert((dy0 + 1) * w == dy0 * w + w) by (nonlinear_arith);
            }
            if dy >= hauteur - 1 {
                break;
            }
        }
    }
    proof {
        lemma_sortie_complete(h);
    }
    sortie
}

/// Says whether `decoder` runs to its end on `hote` (see `decodable`).
pub fn peut_decoder(hote: &PixelBuffer) -> (r: bool)
    requires
        hote@.wf(),
    ensures
        r == decodable(hote@),
{
    let ghost h = hote@;
    let w = hote.width();
    let hh = hote.height();
    proof {
        crate::image::lemma_nb_pixels(h);
        lemma_mul_inequality(1, h.n_channels as int, h.width as int);
    }
    let debut_possible = if w >= 2 {
        10 < w * hh
    } else {
        hh >= 2 && 10 <= hh
    };
    if !debut_possible {
        proof {
            if decodable(h) {
                lemma_mul_inequality(1, lignes_decodees(hauteur_lue(h)), largeur_lue(h));
                assert(24 * largeur_lue(h) * lignes_decodees(hauteur_lue(h)) == 24 * (
                lignes_decodees(hauteur_lue(h)) * largeur_lue(h))) by (nonlinear_arith);
                lemma_lecture_monotone(h, 10, bits_lus(h) / 3);
            }
        }
        return false;
    }
    let (largeur, hauteur, _lec) = lire_entete(hote);
    if largeur == 0 || hauteur == 0 {
        return false;
    }
    let l = largeur as u128;
    let hu = hauteur as u128;
    let lignes: u128 = if hu >= 2 { hu - 1 } else { 1 };
    proof {
        assert(l <= 65535 && hu <= 65535);
        assert((hu - 1) * ((3 * l + 3) / 4 * 4) <= 65535 * 196608) by (nonlinear_arith)
            requires
                1 <= l <= 65535,
                1 <= hu <= 65535,
                (3 * l + 3) / 4 * 4 <= 196608,
        ;
        assert(24 * l * lignes <= 24 * 65535 * 65535) by (nonlinear_arith)
            requires
                l <= 65535,
                lignes <= 65535,
        ;
    }
    let pas = (3 * l + 3) / 4 * 4;
    let taille = (hu - 1) * pas + 3 * l;
    if taille > isize::MAX as u128 {
        return false;
    }
    let bits = 32 + 24 * l * lignes;
    let pixels = (w as u128) * (hh as u128);
    if w >= 2 {
        bits / 3 < pixels
    } else {
        hh >= 2 && bits / 3 <= hh as u128
    }
}

/// The number of bytes that the filter keeps in `g`.
fn compter_retenus(g: &PixelBuffer) -> (r: usize)
    requires
        g@.wf(),
    ensures
        r == octets_retenus(g@, g@.data.len()).len(),
{
    let ghost gi = g@;
    proof {
        lemma_ligne_dans_donnees(gi);
    }
    let n_channels = g.n_channels();
    let ligne = g.width() * n_channels;
    let excedent = g.rowstride() - ligne;
    let mut filtre = FiltreExec { compteur: 1, compteur_canal: 1, saut_ligne: false, saut_canal: false };
    let donnees = g.buffer();
    let mut compte: usize = 0;
    let mut i: usize = 0;
    while i < donnees.len()
        invariant
            0 <= i <= donnees@.len(),
            donnees@ == gi.data,
            gi == g@,
            gi.wf(),
            ligne == gi.width * gi.n_channels,
            excedent == gi.rowstride - ligne,
            n_channels == gi.n_channels,
            filtre.vue() == etat_filtre(gi, i as nat),
            filtre_borne(gi, filtre.vue(), i as int),
            compte == octets_retenus(gi, i as nat).len(),
            compte <= i,
        decreases donnees@.len() - i,
    {
        if pas_filtre(&mut filtre, ligne, excedent, n_channels, Ghost(gi), Ghost(i as int)) {
            compte += 1;
        }
        i += 1;
    }
    compte
}

/// Says whether `encoder` runs to its end on these images (see `encodable`).
pub fn peut_encoder(image_invite: &PixelBuffer, image_hote: &PixelBuffer) -> (r: bool)
    requires
        image_invite@.wf(),
        image_hote@.wf(),
    ensures
        r == encodable(image_invite@, image_hote@),
        r == (image_invite@.width < 65536 && image_invite@.height < 65536 && (8 * (4
            + octets_retenus(image_invite@, image_invite@.data.len()).len()) + 2) / 3
            <= image_hote@.width * image_hote@.height),
{
    if image_invite.width() >= 65536 || image_invite.height() >= 65536 {
        return false;
    }
    let compte = compter_retenus(image_invite) as u128;
    proof {
        crate::image::lemma_nb_pixels(image_hote@);
        lemma_mul_inequality(1, image_hote@.n_channels as int, image_hote@.width as int);
    }
    let pixels = (image_hote.width() * image_hote.height()) as u128;
    let bits = 8 * (4 + compte);
    (bits + 2) / 3 <= pixels
}

} // verus!

use vstd::prelude::*;
use vstd::arithmetic::power2::{pow2, lemma2_to64, lemma_pow2_unfold, lemma_pow2_pos};
use vstd::arithmetic::div_mod::{lemma_mod_breakdown, lemma_fundamental_div_mod_converse, lemma_mod_bound, lemma_small_mod, lemma_div_denominator, lemma_fundamental_div_mod};

verus! {

/// The value of a sequence of binary digits, most significant digit first.
pub open spec fn valeur_binaire(s: Seq<int>) -> int
    decreases s.len(),
{
    if s.len() == 0 {
        0
    } else {
        2 * valeur_binaire(s.drop_last()) + s.last()
    }
}

/// The digits of an array of bytes, as integers.
pub open spec fn entiers_u8(s: Seq<u8>) -> Seq<int> {
    s.map_values(|b: u8| b as int)
}

/// The digits of an array of `usize`, as integers.
pub open spec fn entiers_usize(s: Seq<usize>) -> Seq<int> {
    s.map_values(|b: usize| b as int)
}

/// Binary digit `i` (0 is the most significant of eight) of `n`.
pub open spec fn bit_de_poids(n: int, i: int) -> int {
    (n / (pow2((7 - i) as nat) as int)) % 2
}

/// The eight binary digits of `n`, most significant first.
pub open spec fn bits_octet(n: int) -> Seq<int> {
    Seq::new(8, |i: int| bit_de_poids(n, i))
}

/// A sequence whose every element is a binary digit.
pub open spec fn est_binaire(s: Seq<int>) -> bool {
    forall|i: int| 0 <= i < s.len() ==> #[trigger] s[i] == 0 || s[i] == 1
}

proof fn lemma_valeur_croissante(s: Seq<int>, k: int)
    requires
        0 <= k <= s.len(),
        forall|i: int| 0 <= i < s.len() ==> #[trigger] s[i] >= 0,
    ensures
        0 <= valeur_binaire(s.take(k)) <= valeur_binaire(s),
    decreases s.len() - k,
{
    if k < s.len() {
        lemma_valeur_croissante(s, k + 1);
        assert(s.take(k + 1).drop_last() =~= s.take(k));
    } else {
        assert(s.take(k) =~= s);
    }
    lemma_valeur_positive(s.take(k));
}

proof fn lemma_valeur_positive(s: Seq<int>)
    requires
        forall|i: int| 0 <= i < s.len() ==> #[trigger] s[i] >= 0,
    ensures
        valeur_binaire(s) >= 0,
    decreases s.len(),
{
    if s.len() > 0 {
        lemma_valeur_positive(s.drop_last());
    }
}

proof fn lemma_valeur_ponderee(s: Seq<int>, k: int)
    requires
        0 <= k <= s.len(),
        forall|i: int| 0 <= i < s.len() ==> #[trigger] s[i] >= 0,
    ensures
        0 <= valeur_binaire(s.take(k)) * pow2((s.len() - k) as nat) <= valeur_binaire(s),
    decreases s.len() - k,
{
    lemma_valeur_croissante(s, k);
    lemma_pow2_pos((s.len() - k) as nat);
    let v = valeur_binaire(s.take(k));
    let p = pow2((s.len() - k) as nat) as int;
    assert(0 <= v * p) by (nonlinear_arith)
        requires
            v >= 0,
            p > 0,
    ;
    if k < s.len() {
        lemma_valeur_ponderee(s, k + 1);
        assert(s.take(k + 1).drop_last() =~= s.take(k));
        assert(s.take(k + 1).last() == s[k]);
        assert(valeur_binaire(s.take(k + 1)) == 2 * v + s[k]);
        let q = pow2((s.len() - k - 1) as nat) as int;
        assert((s.len() - (k + 1)) as nat == (s.len() - k - 1) as nat);
        lemma_pow2_unfold((s.len() - k) as nat);
        assert(v * p <= (2 * v + s[k]) * q) by (nonlinear_arith)
            requires
                p == 2 * q,
                s[k] >= 0,
                q > 0,
        ;
    } else {
        assert(s.take(k) =~= s);
        lemma2_to64();
        assert(v * p == v) by (nonlinear_arith)
            requires
                p == 1,
        ;
    }
}

/// Reads eight binary digits, most significant first, as a byte.
pub fn bin_vers_dec(bits: [u8; 8]) -> (nombre: u8)
    requires
        valeur_binaire(entiers_u8(bits@)) <= 255,
    ensures
        nombre == valeur_binaire(entiers_u8(bits@)),
{
    let ghost s = entiers_u8(bits@);
    let mut nombre: u8 = 0;
    let mut puissance: u8 = 128;
    let mut compteur: usize = 0;
    proof {
        lemma2_to64();
        assert(s.take(0) =~= Seq::<int>::empty());
    }
    while compteur < 8
        invariant
            0 <= compteur <= 8,
            s == entiers_u8(bits@),
            s.len() == 8,
            valeur_binaire(s) <= 255,
            compteur < 8 ==> puissance == pow2((7 - compteur) as nat),
            nombre == valeur_binaire(s.take(compteur as int)) * pow2((8 - compteur) as nat),
        decreases 8 - compteur,
    {
        proof {
            lemma2_to64();
            lemma_valeur_ponderee(s, compteur + 1);
            assert(s.take(compteur + 1).drop_last() =~= s.take(compteur as int));
            lemma_pow2_unfold((8 - compteur) as nat);
            let v = valeur_binaire(s.take(compteur as int));
            let p = puissance as int;
            let b = bits[compteur as int] as int;
            assert(v * (2 * p) + b * p == (2 * v + b) * p) by (nonlinear_arith);
            assert(0 <= b * p) by (nonlinear_arith)
                requires
                    b >= 0,
                    p >= 0,
            ;
            lemma_valeur_croissante(s, compteur as int);
            assert(0 <= v * (2 * p)) by (nonlinear_arith)
                requires
                    v >= 0,
                    p >= 0,
            ;
        }
        nombre += bits[compteur] * puissance;
        puissance = puissance / 2;
        compteur += 1;
    }
    proof {
        assert(s.take(8) =~= s);
        lemma2_to64();
        let v = valeur_binaire(s);
        let p = pow2(0) as int;
        assert(v * p == v) by (nonlinear_arith)
            requires
                p == 1,
        ;
    }
    nombre
}

/// Writes a byte as eight binary digits, most significant first.
pub fn dec_vers_bin(nombre: usize) -> (bits: [usize; 8])
    requires
        nombre <= 255,
    ensures
        entiers_usize(bits@) == bits_octet(nombre as int),
{
    let mut bits = [0usize; 8];
    proof {
        lemma2_to64();
    }
    if nombre == 0 {
        proof {
            assert forall|i: int| 0 <= i < 8 implies bit_de_poids(0, i) == 0 by {
                lemma_pow2_pos((7 - i) as nat);
            }
            assert(entiers_usize(bits@) =~= bits_octet(0));
        }
        return bits;
    }
    let mut reste: usize = nombre;
    let mut puissance: usize = 128;
    let mut index: usize = 0;
    proof {
        lemma_small_mod(nombre as nat, 256);
    }
    while index < 8
        invariant
            0 <= index <= 8,
            nombre <= 255,
            index < 8 ==> puissance == pow2((7 - index) as nat),
            reste == (nombre as int) % (pow2((8 - index) as nat) as int),
            forall|j: int| 0 <= j < index ==> bits@[j] == bit_de_poids(nombre as int, j),
            forall|j: int| index <= j < 8 ==> bits@[j] == 0,
        decreases 8 - index,
    {
        let ghost p = pow2((7 - index) as nat) as int;
        let ghost b = bit_de_poids(nombre as int, index as int);
        proof {
            lemma2_to64();
            lemma_pow2_unfold((8 - index) as nat);
            lemma_mod_breakdown(nombre as int, p, 2);
            lemma_mod_bound(nombre as int, p);
            lemma_mod_bound(nombre as int / p, 2);
            assert(pow2((8 - index) as nat) as int == p * 2);
            assert(reste as int == p * b + (nombre as int) % p);
            lemma_fundamental_div_mod_converse(reste as int, p, b, (nombre as int) % p);
            assert(b == 0 || b == 1);
            assert(reste / puissance == b);
        }
        if reste / puissance > 0 {
            bits[index] = reste / puissance;
            reste -= puissance;
        }
        puissance = puissance / 2;
        index += 1;
    }
    proof {
        assert(entiers_usize(bits@) =~= bits_octet(nombre as int));
    }
    bits
}

/// The component that `modifier_composante` leaves behind: 255 is first
/// lowered to 254, then the value is raised by one where its parity is not
/// the one that `bit` asks for.
pub open spec fn composante_modifiee(composante: u8, bit: int) -> u8 {
    let v: u8 = if composante == 255 { 254 } else { composante };
    if v % 2 == 0 && bit == 1 {
        (v + 1) as u8
    } else if v % 2 == 1 && bit == 0 {
        (v + 1) as u8
    } else {
        v
    }
}

/// Sets the parity of a colour component to `bit` (0 even, 1 odd).
pub fn modifier_composante(composante: &mut u8, bit: usize)
    ensures
        *final(composante) == composante_modifiee(*old(composante), bit as int),
{
    if *composante == 255 {
        *composante = 254;
    }
    if *composante % 2 == 0 && bit == 1 {
        *composante = *composante + 1;
    } else if *composante % 2 == 1 && bit == 0 {
        *composante = *composante + 1;
    }
}

/// After `modifier_composante` with a binary digit, the parity of the
/// component is that digit, and the component moved by at most one.
pub proof fn loi_parite_composante(composante: u8, bit: int)
    requires
        bit == 0 || bit == 1,
    ensures
        composante_modifiee(composante, bit) % 2 == bit,
        -1 <= composante_modifiee(composante, bit) - composante <= 1,
        composante % 2 == bit && composante != 255 ==> composante_modifiee(composante, bit)
            == composante,
{
}

proof fn lemma_prefixe_valeur(n: int, k: int)
    requires
        0 <= n <= 255,
        0 <= k <= 8,
    ensures
        valeur_binaire(bits_octet(n).take(k)) == n / (pow2((8 - k) as nat) as int),
    decreases k,
{
    lemma2_to64();
    if k == 0 {
        assert(bits_octet(n).take(0) =~= Seq::<int>::empty());
        lemma_small_mod(n as nat, 256);
        lemma_fundamental_div_mod_converse(n, 256, 0, n);
    } else {
        lemma_prefixe_valeur(n, k - 1);
        assert(bits_octet(n).take(k).drop_last() =~= bits_octet(n).take(k - 1));
        let p = pow2((8 - k) as nat) as int;
        lemma_pow2_unfold((9 - k) as nat);
        lemma_pow2_pos((8 - k) as nat);
        lemma_div_denominator(n, p, 2);
        lemma_fundamental_div_mod(n / p, 2);
    }
}

/// Eight binary digits read back give the byte they were written from.
pub proof fn loi_octet_vers_bits(n: int)
    requires
        0 <= n <= 255,
    ensures
        est_binaire(bits_octet(n)),
        valeur_binaire(bits_octet(n)) == n,
{
    lemma_prefixe_valeur(n, 8);
    lemma2_to64();
    assert(bits_octet(n).take(8) =~= bits_octet(n));
    assert forall|i: int| 0 <= i < 8 implies #[trigger] bits_octet(n)[i] == 0 || bits_octet(n)[i]
        == 1 by {
        lemma_pow2_pos((7 - i) as nat);
        lemma_mod_bound(n / (pow2((7 - i) as nat) as int), 2);
    }
}

proof fn lemma_bit_de_valeur(s: Seq<int>, i: int)
    requires
        est_binaire(s),
        0 <= i < s.len(),
    ensures
        (valeur_binaire(s) / (pow2((s.len() - 1 - i) as nat) as int)) % 2 == s[i],
        valeur_binaire(s) >= 0,
    decreases s.len(),
{
    let t = s.drop_last();
    lemma2_to64();
    assert(est_binaire(t));
    lemma_valeur_positive(s);
    lemma_valeur_positive(t);
    if i == s.len() - 1 {
        lemma_fundamental_div_mod_converse(valeur_binaire(s), 2, valeur_binaire(t), s.last());
        lemma_fundamental_div_mod_converse(valeur_binaire(s), 1, valeur_binaire(s), 0);
    } else {
        lemma_bit_de_valeur(t, i);
        let p = pow2((t.len() - 1 - i) as nat) as int;
        lemma_pow2_pos((t.len() - 1 - i) as nat);
        lemma_pow2_unfold((s.len() - 1 - i) as nat);
        lemma_fundamental_div_mod_converse(valeur_binaire(s), 2, valeur_binaire(t), s.last());
        lemma_div_denominator(valeur_binaire(s), 2, p);
    }
}

/// The binary digits of the value of eight binary digits are those digits.
pub proof fn loi_bits_vers_octet(s: Seq<int>)
    requires
        s.len() == 8,
        est_binaire(s),
    ensures
        0 <= valeur_binaire(s) <= 255,
        bits_octet(valeur_binaire(s)) == s,
{
    assert forall|i: int| 0 <= i < 8 implies #[trigger] bits_octet(valeur_binaire(s))[i] == s[i] by {
        lemma_bit_de_valeur(s, i);
    }
    assert(bits_octet(valeur_binaire(s)) =~= s);
    lemma_valeur_positive(s);
    lemma_borne_valeur(s);
    lemma2_to64();
}

/// Binary digits are worth less than two to the power of their count.
pub proof fn lemma_borne_valeur(s: Seq<int>)
    requires
        est_binaire(s),
    ensures
        valeur_binaire(s) < pow2(s.len()),
    decreases s.len(),
{
    if s.len() == 0 {
        lemma2_to64();
    } else {
        assert(est_binaire(s.drop_last()));
        lemma_borne_valeur(s.drop_last());
        lemma_pow2_unfold(s.len());
    }
}

} // verus!

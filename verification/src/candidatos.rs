//! The candidates of one set of positions: every way of putting other digits there.

use crate::combinacoes::crescente;
use crate::texto::{
    diferencas, diferencas_ate, eh_digito, eh_identificador, lei_diferencas_zero,
    lema_diferencas_com_troca, TAMANHO_CPF,
};
use vstd::prelude::*;
use vstd::slice::slice_to_vec;

verus! {

/// `posicoes` is a set of positions of an identifier: indices below eleven, none twice.
pub open spec fn eh_conjunto_de_posicoes(posicoes: Seq<usize>) -> bool {
    &&& forall|t: int| 0 <= t < posicoes.len() ==> #[trigger] posicoes[t] < TAMANHO_CPF
    &&& forall|s: int, t: int|
        0 <= s < t < posicoes.len() ==> #[trigger] posicoes[s] != #[trigger] posicoes[t]
}

/// Nine to the power `k`: the number of candidates of `k` positions.
pub open spec fn potencia_de_nove(k: nat) -> nat
    decreases k,
{
    if k == 0 {
        1
    } else {
        9 * potencia_de_nove((k - 1) as nat)
    }
}

/// `indice` divided `t` times by nine.
pub open spec fn quociente(indice: nat, t: nat) -> nat
    decreases t,
{
    if t == 0 {
        indice
    } else {
        quociente(indice, (t - 1) as nat) / 9
    }
}

/// The base-nine digit of weight `t` of `indice`: the displacement of the position of rank `t`.
pub open spec fn deslocamento(indice: nat, t: nat) -> nat {
    quociente(indice, t) % 9
}

/// The number that the digit `c` stands for.
pub open spec fn valor_digito(c: char) -> int {
    c as int - '0' as int
}

/// The digit that stands for `v`, for `v` from 0 to 9.
pub open spec fn digito_de(v: int) -> char {
    (v + '0' as int) as char
}

/// The digit that takes the place of `original` under displacement `d`: the digits other than
/// `original`, counted from zero upwards.
pub open spec fn substituto(original: char, d: nat) -> char {
    if d < valor_digito(original) {
        digito_de(d as int)
    } else {
        digito_de(d as int + 1)
    }
}

/// The displacement under which `novo` takes the place of `original`.
pub open spec fn deslocamento_de(original: char, novo: char) -> nat {
    if valor_digito(novo) < valor_digito(original) {
        valor_digito(novo) as nat
    } else {
        (valor_digito(novo) - 1) as nat
    }
}

/// The positions below `n` at which `a` and `b` hold different characters, in growing order.
pub open spec fn posicoes_diferentes(a: Seq<char>, b: Seq<char>, n: nat) -> Seq<usize>
    decreases n,
{
    if n == 0 {
        Seq::empty()
    } else {
        let antes = posicoes_diferentes(a, b, (n - 1) as nat);
        if a[n - 1] != b[n - 1] {
            antes.push((n - 1) as usize)
        } else {
            antes
        }
    }
}

/// The index whose base-nine digits, from rank `t` on, are the displacements that turn the
/// digits of `digitos` at `posicoes` into those of `c`.
pub open spec fn indice_de(digitos: Seq<char>, c: Seq<char>, posicoes: Seq<usize>, t: nat) -> nat
    decreases posicoes.len() - t,
{
    if t >= posicoes.len() {
        0
    } else {
        let p = posicoes[t as int] as int;
        deslocamento_de(digitos[p], c[p]) + 9 * indice_de(digitos, c, posicoes, t + 1)
    }
}

/// Position `q` is one of `posicoes`.
pub open spec fn escolhe(posicoes: Seq<usize>, q: int) -> bool {
    exists|t: int| 0 <= t < posicoes.len() && #[trigger] posicoes[t] == q
}

/// The rank of position `q` among `posicoes`.
pub open spec fn ordem(posicoes: Seq<usize>, q: int) -> nat {
    (choose|t: int| 0 <= t < posicoes.len() && #[trigger] posicoes[t] == q) as nat
}

/// The candidate of index `indice`: at each of `posicoes` the substitute digit that the
/// base-nine digit of `indice` of that position's rank selects, elsewhere the digit of `digitos`.
pub open spec fn candidato(digitos: Seq<char>, posicoes: Seq<usize>, indice: nat) -> Seq<char> {
    Seq::new(
        digitos.len(),
        |q: int|
            if escolhe(posicoes, q) {
                substituto(digitos[q], deslocamento(indice, ordem(posicoes, q)))
            } else {
                digitos[q]
            },
    )
}

/// Nine to a power is at least one and grows with the exponent.
pub proof fn lema_potencia_cresce(a: nat, b: nat)
    requires
        a <= b,
    ensures
        potencia_de_nove(a) <= potencia_de_nove(b),
        potencia_de_nove(a) >= 1,
    decreases b,
{
    if a < b {
        lema_potencia_cresce(a, (b - 1) as nat);
    } else if a > 0 {
        lema_potencia_cresce((a - 1) as nat, (b - 1) as nat);
    }
}

proof fn lema_candidato_estende(digitos: Seq<char>, posicoes: Seq<usize>, indice: nat, j: int)
    requires
        eh_conjunto_de_posicoes(posicoes),
        digitos.len() == TAMANHO_CPF,
        0 <= j < posicoes.len(),
    ensures
        candidato(digitos, posicoes.take(j + 1), indice) == candidato(
            digitos,
            posicoes.take(j),
            indice,
        ).update(
            posicoes[j] as int,
            substituto(digitos[posicoes[j] as int], deslocamento(indice, j as nat)),
        ),
{
    let antes = posicoes.take(j);
    let depois = posicoes.take(j + 1);
    let p = posicoes[j] as int;
    let a = candidato(digitos, depois, indice);
    let b = candidato(digitos, antes, indice).update(
        p,
        substituto(digitos[p], deslocamento(indice, j as nat)),
    );
    assert forall|q: int| 0 <= q < digitos.len() implies a[q] == b[q] by {
        if q == p {
            assert(depois[j] == q);
            assert(escolhe(depois, q));
            let t = ordem(depois, q) as int;
            assert(0 <= t < depois.len() && depois[t] == q);
            assert(posicoes[t] == posicoes[j]);
            assert(t == j);
        } else if escolhe(antes, q) {
            let t = ordem(antes, q) as int;
            assert(0 <= t < antes.len() && antes[t] == q);
            assert(depois[t] == q);
            assert(escolhe(depois, q));
            let u = ordem(depois, q) as int;
            assert(0 <= u < depois.len() && depois[u] == q);
            assert(posicoes[u] == posicoes[t]);
            assert(u == t);
        } else {
            if escolhe(depois, q) {
                let u = ordem(depois, q) as int;
                assert(0 <= u < depois.len() && depois[u] == q);
                assert(u != j);
                assert(antes[u] == q);
            }
        }
    }
    assert(a =~= b);
}

proof fn lema_ordem(posicoes: Seq<usize>, t: int)
    requires
        eh_conjunto_de_posicoes(posicoes),
        0 <= t < posicoes.len(),
    ensures
        escolhe(posicoes, posicoes[t] as int),
        ordem(posicoes, posicoes[t] as int) == t,
{
    let q = posicoes[t] as int;
    assert(posicoes[t] == q);
    let u = ordem(posicoes, q) as int;
    assert(0 <= u < posicoes.len() && posicoes[u] == q);
    assert(posicoes[u] == posicoes[t]);
}

proof fn lema_substituto(original: char, d: nat)
    requires
        eh_digito(original),
        d < 9,
    ensures
        eh_digito(substituto(original, d)),
        substituto(original, d) != original,
        substituto(original, d) as int == if d < valor_digito(original) {
            d + '0' as int
        } else {
            d + 1 + '0' as int
        },
{
}

proof fn lema_quociente_limitado(indice: nat, k: nat, t: nat)
    requires
        indice < potencia_de_nove(k),
        t <= k,
    ensures
        quociente(indice, t) < potencia_de_nove((k - t) as nat),
    decreases t,
{
    if t > 0 {
        lema_quociente_limitado(indice, k, (t - 1) as nat);
        assert(potencia_de_nove((k - t + 1) as nat) == 9 * potencia_de_nove((k - t) as nat));
    }
}

proof fn lema_quocientes_iguais(i: nat, j: nat, k: nat, t: nat)
    requires
        i < potencia_de_nove(k),
        j < potencia_de_nove(k),
        t <= k,
        forall|s: nat| s < k ==> deslocamento(i, s) == deslocamento(j, s),
    ensures
        quociente(i, t) == quociente(j, t),
    decreases k - t,
{
    if t == k {
        lema_quociente_limitado(i, k, k);
        lema_quociente_limitado(j, k, k);
    } else {
        lema_quocientes_iguais(i, j, k, t + 1);
        assert(deslocamento(i, t) == deslocamento(j, t));
        assert(quociente(i, t + 1) == quociente(i, t) / 9);
        assert(quociente(j, t + 1) == quociente(j, t) / 9);
    }
}

/// Every candidate is an identifier that differs from the given one at each of the chosen
/// positions and nowhere else.
pub proof fn lei_candidato_difere_nas_posicoes(
    digitos: Seq<char>,
    posicoes: Seq<usize>,
    indice: nat,
)
    requires
        eh_identificador(digitos),
        eh_conjunto_de_posicoes(posicoes),
    ensures
        eh_identificador(candidato(digitos, posicoes, indice)),
        forall|q: int|
            0 <= q < digitos.len() ==> (#[trigger] candidato(digitos, posicoes, indice)[q]
                != digitos[q] <==> escolhe(posicoes, q)),
        forall|t: int|
            0 <= t < posicoes.len() ==> candidato(
                digitos,
                posicoes,
                indice,
            )[#[trigger] posicoes[t] as int] != digitos[posicoes[t] as int],
{
    let c = candidato(digitos, posicoes, indice);
    assert forall|q: int| 0 <= q < digitos.len() implies eh_digito(#[trigger] c[q]) && (c[q]
        != digitos[q] <==> escolhe(posicoes, q)) by {
        assert(eh_digito(digitos[q]));
        if escolhe(posicoes, q) {
            lema_substituto(digitos[q], deslocamento(indice, ordem(posicoes, q)));
        }
    }
    assert forall|t: int| 0 <= t < posicoes.len() implies c[#[trigger] posicoes[t] as int]
        != digitos[posicoes[t] as int] by {
        lema_ordem(posicoes, t);
    }
}

proof fn lema_distancia_parcial(digitos: Seq<char>, posicoes: Seq<usize>, indice: nat, j: nat)
    requires
        eh_identificador(digitos),
        eh_conjunto_de_posicoes(posicoes),
        j <= posicoes.len(),
    ensures
        diferencas(digitos, candidato(digitos, posicoes.take(j as int), indice)) == j,
    decreases j,
{
    if j == 0 {
        let c = candidato(digitos, posicoes.take(0), indice);
        assert forall|q: int| 0 <= q < digitos.len() implies c[q] == digitos[q] by {
            if escolhe(posicoes.take(0), q) {
                let t = ordem(posicoes.take(0), q) as int;
                assert(0 <= t < posicoes.take(0).len());
            }
        }
        assert(c =~= digitos);
        lei_diferencas_zero(digitos, digitos);
    } else {
        let t = (j - 1) as int;
        let antes = posicoes.take(t);
        let p = posicoes[t] as int;
        let anterior = candidato(digitos, antes, indice);
        let novo = substituto(digitos[p], deslocamento(indice, t as nat));
        lema_distancia_parcial(digitos, posicoes, indice, (j - 1) as nat);
        lema_candidato_estende(digitos, posicoes, indice, t);
        assert(eh_digito(digitos[p]));
        lema_substituto(digitos[p], deslocamento(indice, t as nat));
        assert(anterior[p] == digitos[p]) by {
            if escolhe(antes, p) {
                let u = ordem(antes, p) as int;
                assert(0 <= u < antes.len() && antes[u] == p);
                assert(posicoes[u] == posicoes[t]);
            }
        }
        lema_diferencas_com_troca(digitos, anterior, p, novo, TAMANHO_CPF as nat);
    }
}

/// A candidate of `k` positions differs from the given identifier in exactly `k` digits.
pub proof fn lei_distancia_do_candidato(digitos: Seq<char>, posicoes: Seq<usize>, indice: nat)
    requires
        eh_identificador(digitos),
        eh_conjunto_de_posicoes(posicoes),
    ensures
        diferencas(digitos, candidato(digitos, posicoes, indice)) == posicoes.len(),
{
    lema_distancia_parcial(digitos, posicoes, indice, posicoes.len());
    assert(posicoes.take(posicoes.len() as int) == posicoes);
}

proof fn lema_posicoes_diferentes(a: Seq<char>, b: Seq<char>, n: nat)
    requires
        n <= TAMANHO_CPF,
    ensures
        posicoes_diferentes(a, b, n).len() == diferencas_ate(a, b, n),
        crescente(posicoes_diferentes(a, b, n)),
        forall|t: int|
            0 <= t < posicoes_diferentes(a, b, n).len() ==> {
                let p = #[trigger] posicoes_diferentes(a, b, n)[t];
                p < n && a[p as int] != b[p as int]
            },
        forall|q: int| 0 <= q < n && a[q] != b[q] ==> escolhe(posicoes_diferentes(a, b, n), q),
    decreases n,
{
    if n > 0 {
        let antes = posicoes_diferentes(a, b, (n - 1) as nat);
        let agora = posicoes_diferentes(a, b, n);
        lema_posicoes_diferentes(a, b, (n - 1) as nat);
        assert forall|q: int| 0 <= q < n && a[q] != b[q] implies escolhe(agora, q) by {
            if q < n - 1 {
                let t = choose|t: int| 0 <= t < antes.len() && #[trigger] antes[t] == q;
                assert(agora[t] == q);
            } else {
                assert(agora[antes.len() as int] == q);
            }
        }
    }
}

proof fn lema_deslocamento_de(original: char, novo: char)
    requires
        eh_digito(original),
        eh_digito(novo),
        original != novo,
    ensures
        deslocamento_de(original, novo) < 9,
        substituto(original, deslocamento_de(original, novo)) == novo,
{
}

proof fn lema_quociente_avanca(indice: nat, t: nat)
    ensures
        quociente(indice, t + 1) == quociente(indice / 9, t),
    decreases t,
{
    assert(quociente(indice, t + 1) == quociente(indice, t) / 9);
    if t > 0 {
        lema_quociente_avanca(indice, (t - 1) as nat);
        assert(quociente(indice / 9, t) == quociente(indice / 9, (t - 1) as nat) / 9);
    } else {
        assert(quociente(indice, 0) == indice);
    }
}

proof fn lema_indice_de(digitos: Seq<char>, c: Seq<char>, posicoes: Seq<usize>, t: nat, s: nat)
    requires
        eh_identificador(digitos),
        eh_identificador(c),
        t <= posicoes.len(),
        forall|u: int|
            0 <= u < posicoes.len() ==> {
                let p = #[trigger] posicoes[u];
                p < TAMANHO_CPF && digitos[p as int] != c[p as int]
            },
    ensures
        indice_de(digitos, c, posicoes, t) < potencia_de_nove((posicoes.len() - t) as nat),
        t + s < posicoes.len() ==> deslocamento(indice_de(digitos, c, posicoes, t), s)
            == deslocamento_de(
            digitos[posicoes[(t + s) as int] as int],
            c[posicoes[(t + s) as int] as int],
        ),
    decreases posicoes.len() - t, s,
{
    if t < posicoes.len() {
        let p = posicoes[t as int] as int;
        let resto = indice_de(digitos, c, posicoes, t + 1);
        let i = indice_de(digitos, c, posicoes, t);
        assert(eh_digito(digitos[p]) && eh_digito(c[p]));
        lema_deslocamento_de(digitos[p], c[p]);
        lema_indice_de(digitos, c, posicoes, t + 1, 0);
        assert(i == deslocamento_de(digitos[p], c[p]) + 9 * resto);
        assert(potencia_de_nove((posicoes.len() - t) as nat) == 9 * potencia_de_nove(
            (posicoes.len() - t - 1) as nat,
        ));
        if s > 0 && t + s < posicoes.len() {
            lema_indice_de(digitos, c, posicoes, t + 1, (s - 1) as nat);
            lema_quociente_avanca(i, (s - 1) as nat);
            assert(i / 9 == resto);
        }
    }
}

/// Every identifier is a candidate: the one that the set of positions at which it differs
/// from the given one, taken in growing order, yields for an index below nine to the power
/// of the number of those positions.
pub proof fn lei_candidatos_completos(digitos: Seq<char>, c: Seq<char>)
    requires
        eh_identificador(digitos),
        eh_identificador(c),
    ensures
        ({
            let posicoes = posicoes_diferentes(digitos, c, TAMANHO_CPF as nat);
            let indice = indice_de(digitos, c, posicoes, 0);
            &&& eh_conjunto_de_posicoes(posicoes)
            &&& crescente(posicoes)
            &&& posicoes.len() == diferencas(digitos, c)
            &&& indice < potencia_de_nove(posicoes.len())
            &&& candidato(digitos, posicoes, indice) == c
        }),
{
    let posicoes = posicoes_diferentes(digitos, c, TAMANHO_CPF as nat);
    let indice = indice_de(digitos, c, posicoes, 0);
    lema_posicoes_diferentes(digitos, c, TAMANHO_CPF as nat);
    lema_indice_de(digitos, c, posicoes, 0, 0);
    let gerado = candidato(digitos, posicoes, indice);
    assert forall|q: int| 0 <= q < digitos.len() implies gerado[q] == c[q] by {
        if escolhe(posicoes, q) {
            let t = ordem(posicoes, q);
            assert(0 <= t < posicoes.len() && posicoes[t as int] == q);
            lema_indice_de(digitos, c, posicoes, 0, t);
            assert(eh_digito(digitos[q]) && eh_digito(c[q]));
            lema_deslocamento_de(digitos[q], c[q]);
        }
    }
    assert(gerado =~= c);
}

/// Different indices below nine to the power of the number of positions give different
/// candidates: the nine to the `k` candidates of `k` positions are all distinct.
pub proof fn lei_candidatos_distintos(digitos: Seq<char>, posicoes: Seq<usize>, i: nat, j: nat)
    requires
        eh_identificador(digitos),
        eh_conjunto_de_posicoes(posicoes),
        i < potencia_de_nove(posicoes.len()),
        j < potencia_de_nove(posicoes.len()),
        i != j,
    ensures
        candidato(digitos, posicoes, i) != candidato(digitos, posicoes, j),
{
    let k = posicoes.len();
    let ci = candidato(digitos, posicoes, i);
    let cj = candidato(digitos, posicoes, j);
    if ci == cj {
        assert forall|s: nat| s < k implies deslocamento(i, s) == deslocamento(j, s) by {
            let q = posicoes[s as int] as int;
            lema_ordem(posicoes, s as int);
            assert(eh_digito(digitos[q]));
            lema_substituto(digitos[q], deslocamento(i, s));
            lema_substituto(digitos[q], deslocamento(j, s));
            assert(ci[q] == substituto(digitos[q], deslocamento(i, s)));
            assert(cj[q] == substituto(digitos[q], deslocamento(j, s)));
        }
        lema_quocientes_iguais(i, j, k, 0);
    }
}

/// Builds the candidate of index `indice` for the positions `posicoes` of `digitos`.
///
/// The positions are taken in order; each consumes one base-nine digit of `indice`, the
/// lowest first, and receives the substitute that this digit selects.
pub fn gerar_candidato(digitos: &[char], posicoes: &[usize], indice: usize) -> (r: Vec<char>)
    requires
        eh_identificador(digitos@),
        eh_conjunto_de_posicoes(posicoes@),
    ensures
        r@ == candidato(digitos@, posicoes@, indice as nat),
{
    let mut r = slice_to_vec(digitos);
    let mut temporario = indice;
    let mut j: usize = 0;
    proof {
        assert(!escolhe(posicoes@.take(0), 0)) by {
            assert(posicoes@.take(0).len() == 0);
        }
        assert(r@ =~= candidato(digitos@, posicoes@.take(0), indice as nat));
    }
    while j < posicoes.len()
        invariant
            j <= posicoes.len(),
            eh_identificador(digitos@),
            eh_conjunto_de_posicoes(posicoes@),
            temporario == quociente(indice as nat, j as nat),
            r@ == candidato(digitos@, posicoes@.take(j as int), indice as nat),
        decreases posicoes.len() - j,
    {
        let posicao = posicoes[j];
        let original = digitos[posicao];
        assert(eh_digito(original));
        let digito_original = (original as u32 - '0' as u32) as usize;
        let desloc = temporario % 9;
        temporario = temporario / 9;
        let novo_digito = if desloc < digito_original {
            desloc
        } else {
            desloc + 1
        };
        let novo = (novo_digito as u8 + 48u8) as char;
        assert(novo == substituto(original, deslocamento(indice as nat, j as nat)));
        r.set(posicao, novo);
        proof {
            lema_candidato_estende(digitos@, posicoes@, indice as nat, j as int);
        }
        j += 1;
    }
    proof {
        assert(posicoes@.take(posicoes@.len() as int) == posicoes@);
    }
    r
}

} // verus!

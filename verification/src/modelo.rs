//! What a search computes, stated over sequences of characters and of records.

use crate::candidatos::{candidato, eh_conjunto_de_posicoes, potencia_de_nove};
use crate::combinacoes::{
    binomial, combinacoes, crescente, escolhida_de, lei_binomial_ate_tres, lei_combinacoes,
};
use crate::estado::{ErroValidacao, EstadoApp, Registro, Visao};
use crate::fronteira::cpf_valido;
use crate::texto::{diferencas, eh_identificador, formatado, sem_pontuacao, TAMANHO_CPF};
use vstd::prelude::*;

verus! {

/// The deepest level that a search tries.
pub const NIVEL_MAXIMO: usize = 3;

/// The number of candidates of a search that tries every level.
pub const CANDIDATOS_DA_BUSCA: usize = 124_839;

/// Some entry of `rs` has the display form `f`.
pub open spec fn ja_existe(rs: Seq<Registro>, f: Seq<char>) -> bool {
    exists|i: int| 0 <= i < rs.len() && (#[trigger] rs[i]).formatado == f
}

/// No two entries of `rs` have the same display form.
pub open spec fn sem_repetidos(rs: Seq<Registro>) -> bool {
    forall|i: int, j: int|
        0 <= i < j < rs.len() ==> (#[trigger] rs[i]).formatado != (#[trigger] rs[j]).formatado
}

/// The results after one candidate was judged: a valid candidate whose display form is not
/// yet listed is added at the end, with its distance from `referencia`; anything else
/// leaves the results as they are.
pub open spec fn registrado(
    rs: Seq<Registro>,
    referencia: Seq<char>,
    cand: Seq<char>,
    valido: bool,
) -> Seq<Registro> {
    if valido && !ja_existe(rs, formatado(cand)) {
        rs.push(Registro { formatado: formatado(cand), diferencas: diferencas(referencia, cand) })
    } else {
        rs
    }
}

/// The results after the first `n` candidates of `posicoes` were judged, in order of index.
pub open spec fn apos_candidatos(
    rs: Seq<Registro>,
    referencia: Seq<char>,
    digitos: Seq<char>,
    posicoes: Seq<usize>,
    n: nat,
) -> Seq<Registro>
    decreases n,
{
    if n == 0 {
        rs
    } else {
        let c = candidato(digitos, posicoes, (n - 1) as nat);
        registrado(
            apos_candidatos(rs, referencia, digitos, posicoes, (n - 1) as nat),
            referencia,
            c,
            cpf_valido(c),
        )
    }
}

/// The results after every candidate of each of the first `m` position sets of `conjuntos`
/// was judged, one set after the other.
pub open spec fn apos_conjuntos(
    rs: Seq<Registro>,
    referencia: Seq<char>,
    digitos: Seq<char>,
    conjuntos: Seq<Seq<usize>>,
    m: nat,
) -> Seq<Registro>
    decreases m,
{
    if m == 0 {
        rs
    } else {
        let posicoes = conjuntos[m - 1];
        apos_candidatos(
            apos_conjuntos(rs, referencia, digitos, conjuntos, (m - 1) as nat),
            referencia,
            digitos,
            posicoes,
            potencia_de_nove(posicoes.len()),
        )
    }
}

/// The eleven positions of a CPF, in order.
pub open spec fn posicoes_do_cpf() -> Seq<usize> {
    Seq::new(TAMANHO_CPF as nat, |i: int| i as usize)
}

/// The results after level `k`: every candidate of every set of `k` positions was judged.
pub open spec fn apos_nivel(
    rs: Seq<Registro>,
    referencia: Seq<char>,
    digitos: Seq<char>,
    k: nat,
) -> Seq<Registro> {
    let conjuntos = combinacoes(posicoes_do_cpf(), k);
    apos_conjuntos(rs, referencia, digitos, conjuntos, conjuntos.len())
}

/// The results after the levels from 1 up to `n` were tried in turn, stopping after the
/// first level that added a result.
pub open spec fn busca_ate(
    rs: Seq<Registro>,
    referencia: Seq<char>,
    digitos: Seq<char>,
    n: nat,
) -> Seq<Registro>
    decreases n,
{
    if n == 0 {
        rs
    } else {
        let antes = busca_ate(rs, referencia, digitos, (n - 1) as nat);
        if antes.len() > rs.len() {
            antes
        } else {
            apos_nivel(antes, referencia, digitos, n)
        }
    }
}

/// How many of the levels from 1 up to `n` that search tries: all of them, or those up to
/// the first one that added a result.
pub open spec fn niveis_tentados(
    rs: Seq<Registro>,
    referencia: Seq<char>,
    digitos: Seq<char>,
    n: nat,
) -> nat
    decreases n,
{
    if n == 0 {
        0
    } else if busca_ate(rs, referencia, digitos, (n - 1) as nat).len() > rs.len() {
        niveis_tentados(rs, referencia, digitos, (n - 1) as nat)
    } else {
        n
    }
}

/// The number of candidates of level `k`: nine to the `k` for each set of `k` positions.
pub open spec fn candidatos_no_nivel(k: nat) -> nat {
    binomial(TAMANHO_CPF as nat, k) * potencia_de_nove(k)
}

/// The number of candidates of the levels from 1 up to `n`.
pub open spec fn candidatos_ate(n: nat) -> nat
    decreases n,
{
    if n == 0 {
        0
    } else {
        candidatos_ate((n - 1) as nat) + candidatos_no_nivel(n)
    }
}

/// The state that the input `entrada` leads to from the state `antes`.
///
/// An input that, without its punctuation, is not an identifier is rejected for its length;
/// an identifier that the validator rejects is rejected for that. Both leave the state waiting
/// for input, with no results. A valid CPF becomes the reference, and the state holds what
/// the search from level 1 to level 3 finds for it and how many candidates it tried.
pub open spec fn apos_pedido(antes: Visao, entrada: Seq<char>) -> Visao {
    let limpo = sem_pontuacao(entrada);
    if !eh_identificador(limpo) {
        Visao {
            estado: EstadoApp::Entrada,
            cpf_original: antes.cpf_original,
            resultados: Seq::empty(),
            erro: Some(ErroValidacao::TamanhoInvalido),
            total_verificados: 0,
        }
    } else if !cpf_valido(limpo) {
        Visao {
            estado: EstadoApp::Entrada,
            cpf_original: antes.cpf_original,
            resultados: Seq::empty(),
            erro: Some(ErroValidacao::CpfInvalido),
            total_verificados: 0,
        }
    } else {
        Visao {
            estado: EstadoApp::Concluido,
            cpf_original: limpo,
            resultados: busca_ate(Seq::empty(), limpo, limpo, NIVEL_MAXIMO as nat),
            erro: None,
            total_verificados: candidatos_ate(
                niveis_tentados(Seq::empty(), limpo, limpo, NIVEL_MAXIMO as nat),
            ),
        }
    }
}

/// The levels hold 99, 4455 and 120285 candidates: 99, 4554 and 124839 up to each of them.
pub proof fn lei_candidatos_por_nivel()
    ensures
        candidatos_no_nivel(1) == 99,
        candidatos_no_nivel(2) == 4455,
        candidatos_no_nivel(3) == 120285,
        candidatos_ate(0) == 0,
        candidatos_ate(1) == 99,
        candidatos_ate(2) == 4554,
        candidatos_ate(3) == CANDIDATOS_DA_BUSCA,
{
    lei_binomial_ate_tres(11);
    reveal_with_fuel(potencia_de_nove, 4);
    reveal_with_fuel(candidatos_ate, 4);
    assert(binomial(11, 2) == 55);
    assert(binomial(11, 3) == 165);
    assert(potencia_de_nove(1) == 9);
    assert(potencia_de_nove(2) == 81);
    assert(potencia_de_nove(3) == 729);
}

/// Judging candidates never removes a result.
pub proof fn lema_candidatos_crescem(
    rs: Seq<Registro>,
    referencia: Seq<char>,
    digitos: Seq<char>,
    posicoes: Seq<usize>,
    n: nat,
)
    ensures
        apos_candidatos(rs, referencia, digitos, posicoes, n).len() >= rs.len(),
    decreases n,
{
    if n > 0 {
        lema_candidatos_crescem(rs, referencia, digitos, posicoes, (n - 1) as nat);
    }
}

/// Judging the candidates of position sets never removes a result.
pub proof fn lema_conjuntos_crescem(
    rs: Seq<Registro>,
    referencia: Seq<char>,
    digitos: Seq<char>,
    conjuntos: Seq<Seq<usize>>,
    m: nat,
)
    ensures
        apos_conjuntos(rs, referencia, digitos, conjuntos, m).len() >= rs.len(),
    decreases m,
{
    if m > 0 {
        let antes = apos_conjuntos(rs, referencia, digitos, conjuntos, (m - 1) as nat);
        lema_conjuntos_crescem(rs, referencia, digitos, conjuntos, (m - 1) as nat);
        lema_candidatos_crescem(
            antes,
            referencia,
            digitos,
            conjuntos[m - 1],
            potencia_de_nove(conjuntos[m - 1].len()),
        );
    }
}

/// A search never removes a result, and tries no more levels than it is allowed.
pub proof fn lema_busca_cresce(rs: Seq<Registro>, referencia: Seq<char>, digitos: Seq<char>, n: nat)
    ensures
        busca_ate(rs, referencia, digitos, n).len() >= rs.len(),
        niveis_tentados(rs, referencia, digitos, n) <= n,
    decreases n,
{
    if n > 0 {
        lema_busca_cresce(rs, referencia, digitos, (n - 1) as nat);
        let antes = busca_ate(rs, referencia, digitos, (n - 1) as nat);
        let conjuntos = combinacoes(posicoes_do_cpf(), n);
        lema_conjuntos_crescem(antes, referencia, digitos, conjuntos, conjuntos.len());
    }
}

/// Once a level has added a result, allowing more levels changes nothing.
pub proof fn lema_busca_encerrada(
    rs: Seq<Registro>,
    referencia: Seq<char>,
    digitos: Seq<char>,
    n: nat,
    m: nat,
)
    requires
        n <= m,
        busca_ate(rs, referencia, digitos, n).len() > rs.len(),
    ensures
        busca_ate(rs, referencia, digitos, m) == busca_ate(rs, referencia, digitos, n),
        niveis_tentados(rs, referencia, digitos, m) == niveis_tentados(rs, referencia, digitos, n),
    decreases m,
{
    if n < m {
        lema_busca_encerrada(rs, referencia, digitos, n, (m - 1) as nat);
    }
}

/// Level `k` has `binomial(11, k)` position sets, each a set of `k` positions of a CPF.
pub proof fn lema_conjunto_do_nivel(k: nat, j: int)
    requires
        0 <= j < combinacoes(posicoes_do_cpf(), k).len(),
    ensures
        combinacoes(posicoes_do_cpf(), k).len() == binomial(TAMANHO_CPF as nat, k),
        combinacoes(posicoes_do_cpf(), k)[j].len() == k,
        eh_conjunto_de_posicoes(combinacoes(posicoes_do_cpf(), k)[j]),
{
    let posicoes = posicoes_do_cpf();
    assert(crescente(posicoes));
    lei_combinacoes(posicoes, k);
    let c = combinacoes(posicoes, k)[j];
    assert(escolhida_de(c, posicoes, 0));
    assert forall|t: int| 0 <= t < c.len() implies #[trigger] c[t] < TAMANHO_CPF by {
        let i = choose|i: int| 0 <= i < posicoes.len() && #[trigger] posicoes[i] == c[t];
        assert(posicoes[i] == i);
    }
    assert(crescente(c));
}

} // verus!

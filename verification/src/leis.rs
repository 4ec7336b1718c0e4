//! What holds of every completed search.

use crate::candidatos::{
    candidato, eh_conjunto_de_posicoes, indice_de, lei_candidato_difere_nas_posicoes,
    lei_candidatos_completos, lei_distancia_do_candidato, posicoes_diferentes, potencia_de_nove,
};
use crate::combinacoes::{combinacoes, crescente, lei_combinacoes_completas};
use crate::estado::{EstadoApp, Registro, Visao};
use crate::fronteira::cpf_valido;
use crate::modelo::{
    apos_candidatos, apos_conjuntos, apos_nivel, apos_pedido, busca_ate, candidatos_ate,
    ja_existe, lei_candidatos_por_nivel, lema_busca_cresce, lema_busca_encerrada,
    lema_conjunto_do_nivel, niveis_tentados, posicoes_do_cpf, registrado, sem_repetidos,
    CANDIDATOS_DA_BUSCA, NIVEL_MAXIMO,
};
use crate::texto::{
    diferencas, eh_identificador, formatado, lei_formatar_e_limpar, sem_pontuacao, TAMANHO_CPF,
};
use vstd::prelude::*;

verus! {

/// `r` records a valid identifier at distance `k` from `digitos`.
pub open spec fn eh_variacao(r: Registro, digitos: Seq<char>, k: nat) -> bool {
    exists|c: Seq<char>|
        eh_identificador(c) && #[trigger] cpf_valido(c) && diferencas(digitos, c) == k
            && r.formatado == formatado(c) && r.diferencas == k
}

/// Every entry of `rs` records a valid identifier at distance `k` from `digitos`.
pub open spec fn todas_variacoes(rs: Seq<Registro>, digitos: Seq<char>, k: nat) -> bool {
    forall|i: int| 0 <= i < rs.len() ==> eh_variacao(#[trigger] rs[i], digitos, k)
}

proof fn lema_candidatos_variacoes(
    rs: Seq<Registro>,
    digitos: Seq<char>,
    posicoes: Seq<usize>,
    n: nat,
)
    requires
        eh_identificador(digitos),
        eh_conjunto_de_posicoes(posicoes),
        todas_variacoes(rs, digitos, posicoes.len()),
        sem_repetidos(rs),
    ensures
        todas_variacoes(
            apos_candidatos(rs, digitos, digitos, posicoes, n),
            digitos,
            posicoes.len(),
        ),
        sem_repetidos(apos_candidatos(rs, digitos, digitos, posicoes, n)),
    decreases n,
{
    if n > 0 {
        let antes = apos_candidatos(rs, digitos, digitos, posicoes, (n - 1) as nat);
        let c = candidato(digitos, posicoes, (n - 1) as nat);
        let depois = registrado(antes, digitos, c, cpf_valido(c));
        lema_candidatos_variacoes(rs, digitos, posicoes, (n - 1) as nat);
        lei_candidato_difere_nas_posicoes(digitos, posicoes, (n - 1) as nat);
        lei_distancia_do_candidato(digitos, posicoes, (n - 1) as nat);
        if depois.len() > antes.len() {
            assert forall|i: int| 0 <= i < depois.len() implies eh_variacao(
                #[trigger] depois[i],
                digitos,
                posicoes.len(),
            ) by {
                if i < antes.len() {
                    assert(depois[i] == antes[i]);
                } else {
                    assert(cpf_valido(c));
                }
            }
            assert forall|i: int, j: int| 0 <= i < j < depois.len() implies (
            #[trigger] depois[i]).formatado != (#[trigger] depois[j]).formatado by {
                assert(depois[i] == antes[i]);
                if j < antes.len() {
                    assert(depois[j] == antes[j]);
                }
            }
        }
    }
}

proof fn lema_conjuntos_variacoes(rs: Seq<Registro>, digitos: Seq<char>, k: nat, m: nat)
    requires
        eh_identificador(digitos),
        todas_variacoes(rs, digitos, k),
        sem_repetidos(rs),
        m <= combinacoes(posicoes_do_cpf(), k).len(),
    ensures
        todas_variacoes(
            apos_conjuntos(rs, digitos, digitos, combinacoes(posicoes_do_cpf(), k), m),
            digitos,
            k,
        ),
        sem_repetidos(apos_conjuntos(rs, digitos, digitos, combinacoes(posicoes_do_cpf(), k), m)),
    decreases m,
{
    if m > 0 {
        let conjuntos = combinacoes(posicoes_do_cpf(), k);
        lema_conjuntos_variacoes(rs, digitos, k, (m - 1) as nat);
        lema_conjunto_do_nivel(k, m - 1);
        lema_candidatos_variacoes(
            apos_conjuntos(rs, digitos, digitos, conjuntos, (m - 1) as nat),
            digitos,
            conjuntos[m - 1],
            potencia_de_nove(k),
        );
    }
}

proof fn lema_busca_variacoes(digitos: Seq<char>, n: nat)
    requires
        eh_identificador(digitos),
    ensures
        todas_variacoes(
            busca_ate(Seq::empty(), digitos, digitos, n),
            digitos,
            niveis_tentados(Seq::empty(), digitos, digitos, n),
        ),
        sem_repetidos(busca_ate(Seq::empty(), digitos, digitos, n)),
        niveis_tentados(Seq::empty(), digitos, digitos, n) <= n,
        busca_ate(Seq::empty(), digitos, digitos, n).len() == 0 ==> niveis_tentados(
            Seq::empty(),
            digitos,
            digitos,
            n,
        ) == n,
    decreases n,
{
    if n > 0 {
        let vazio = Seq::<Registro>::empty();
        let antes = busca_ate(vazio, digitos, digitos, (n - 1) as nat);
        lema_busca_variacoes(digitos, (n - 1) as nat);
        if antes.len() == 0 {
            assert(antes =~= vazio);
            let conjuntos = combinacoes(posicoes_do_cpf(), n);
            lema_conjuntos_variacoes(vazio, digitos, n, conjuntos.len());
        }
    }
}

/// What a completed search holds. Every result is the display form of a valid identifier, and
/// all of them lie at one distance from the reference CPF: the number of the last level
/// tried. No display form is listed twice. If there is no result, all three levels were tried.
pub proof fn lei_resultados_da_busca(digitos: Seq<char>)
    requires
        eh_identificador(digitos),
    ensures
        ({
            let rs = busca_ate(Seq::empty(), digitos, digitos, NIVEL_MAXIMO as nat);
            let k = niveis_tentados(Seq::empty(), digitos, digitos, NIVEL_MAXIMO as nat);
            &&& 1 <= k <= NIVEL_MAXIMO
            &&& todas_variacoes(rs, digitos, k)
            &&& sem_repetidos(rs)
            &&& rs.len() == 0 ==> k == NIVEL_MAXIMO
        }),
{
    lema_busca_variacoes(digitos, NIVEL_MAXIMO as nat);
    let vazio = Seq::<Registro>::empty();
    assert(busca_ate(vazio, digitos, digitos, 0) == vazio);
    assert(niveis_tentados(vazio, digitos, digitos, 1) == 1);
    lema_busca_cresce(vazio, digitos, digitos, 1);
    lema_busca_cresce(vazio, digitos, digitos, 2);
    if busca_ate(vazio, digitos, digitos, 1).len() > 0 {
        lema_busca_encerrada(vazio, digitos, digitos, 1, 3);
    }
}

proof fn lema_candidatos_mantem(
    rs: Seq<Registro>,
    referencia: Seq<char>,
    digitos: Seq<char>,
    posicoes: Seq<usize>,
    n: nat,
    f: Seq<char>,
)
    requires
        ja_existe(rs, f),
    ensures
        ja_existe(apos_candidatos(rs, referencia, digitos, posicoes, n), f),
    decreases n,
{
    if n > 0 {
        let antes = apos_candidatos(rs, referencia, digitos, posicoes, (n - 1) as nat);
        let depois = apos_candidatos(rs, referencia, digitos, posicoes, n);
        lema_candidatos_mantem(rs, referencia, digitos, posicoes, (n - 1) as nat, f);
        let i = choose|i: int| 0 <= i < antes.len() && (#[trigger] antes[i]).formatado == f;
        assert(depois[i].formatado == f);
    }
}

proof fn lema_candidatos_contem(
    rs: Seq<Registro>,
    referencia: Seq<char>,
    digitos: Seq<char>,
    posicoes: Seq<usize>,
    n: nat,
    i: nat,
)
    requires
        i < n,
        cpf_valido(candidato(digitos, posicoes, i)),
    ensures
        ja_existe(
            apos_candidatos(rs, referencia, digitos, posicoes, n),
            formatado(candidato(digitos, posicoes, i)),
        ),
    decreases n,
{
    let f = formatado(candidato(digitos, posicoes, i));
    let antes = apos_candidatos(rs, referencia, digitos, posicoes, (n - 1) as nat);
    let depois = apos_candidatos(rs, referencia, digitos, posicoes, n);
    if i == n - 1 {
        if ja_existe(antes, f) {
            let j = choose|j: int| 0 <= j < antes.len() && (#[trigger] antes[j]).formatado == f;
            assert(depois[j].formatado == f);
        } else {
            assert(depois[antes.len() as int].formatado == f);
        }
    } else {
        lema_candidatos_contem(rs, referencia, digitos, posicoes, (n - 1) as nat, i);
        let j = choose|j: int| 0 <= j < antes.len() && (#[trigger] antes[j]).formatado == f;
        assert(depois[j].formatado == f);
    }
}

proof fn lema_conjuntos_mantem(
    rs: Seq<Registro>,
    referencia: Seq<char>,
    digitos: Seq<char>,
    conjuntos: Seq<Seq<usize>>,
    m: nat,
    f: Seq<char>,
)
    requires
        ja_existe(rs, f),
    ensures
        ja_existe(apos_conjuntos(rs, referencia, digitos, conjuntos, m), f),
    decreases m,
{
    if m > 0 {
        lema_conjuntos_mantem(rs, referencia, digitos, conjuntos, (m - 1) as nat, f);
        lema_candidatos_mantem(
            apos_conjuntos(rs, referencia, digitos, conjuntos, (m - 1) as nat),
            referencia,
            digitos,
            conjuntos[m - 1],
            potencia_de_nove(conjuntos[m - 1].len()),
            f,
        );
    }
}

proof fn lema_conjuntos_contem(
    rs: Seq<Registro>,
    referencia: Seq<char>,
    digitos: Seq<char>,
    conjuntos: Seq<Seq<usize>>,
    m: nat,
    j: nat,
    i: nat,
)
    requires
        j < m,
        i < potencia_de_nove(conjuntos[j as int].len()),
        cpf_valido(candidato(digitos, conjuntos[j as int], i)),
    ensures
        ja_existe(
            apos_conjuntos(rs, referencia, digitos, conjuntos, m),
            formatado(candidato(digitos, conjuntos[j as int], i)),
        ),
    decreases m,
{
    let antes = apos_conjuntos(rs, referencia, digitos, conjuntos, (m - 1) as nat);
    let posicoes = conjuntos[m - 1];
    if j == m - 1 {
        lema_candidatos_contem(
            antes,
            referencia,
            digitos,
            posicoes,
            potencia_de_nove(posicoes.len()),
            i,
        );
    } else {
        lema_conjuntos_contem(rs, referencia, digitos, conjuntos, (m - 1) as nat, j, i);
        lema_candidatos_mantem(
            antes,
            referencia,
            digitos,
            posicoes,
            potencia_de_nove(posicoes.len()),
            formatado(candidato(digitos, conjuntos[j as int], i)),
        );
    }
}

proof fn lema_nivel_contem(
    rs: Seq<Registro>,
    referencia: Seq<char>,
    digitos: Seq<char>,
    c: Seq<char>,
)
    requires
        eh_identificador(digitos),
        eh_identificador(c),
        cpf_valido(c),
    ensures
        ja_existe(apos_nivel(rs, referencia, digitos, diferencas(digitos, c)), formatado(c)),
{
    let k = diferencas(digitos, c);
    let posicoes = posicoes_diferentes(digitos, c, TAMANHO_CPF as nat);
    let indice = indice_de(digitos, c, posicoes, 0);
    let todas = posicoes_do_cpf();
    let conjuntos = combinacoes(todas, k);
    lei_candidatos_completos(digitos, c);
    assert(crescente(todas));
    assert forall|t: int| 0 <= t < posicoes.len() implies exists|i: int|
        0 <= i < todas.len() && #[trigger] todas[i] == #[trigger] posicoes[t] by {
        assert(todas[posicoes[t] as int] == posicoes[t]);
    }
    lei_combinacoes_completas(todas, posicoes);
    let j = choose|j: int| 0 <= j < conjuntos.len() && conjuntos[j] == posicoes;
    lema_conjuntos_contem(rs, referencia, digitos, conjuntos, conjuntos.len(), j as nat, indice);
}

proof fn lema_busca_completa(digitos: Seq<char>, c: Seq<char>, n: nat)
    requires
        eh_identificador(digitos),
        eh_identificador(c),
        cpf_valido(c),
        1 <= diferencas(digitos, c) <= niveis_tentados(Seq::empty(), digitos, digitos, n),
    ensures
        ja_existe(busca_ate(Seq::empty(), digitos, digitos, n), formatado(c)),
    decreases n,
{
    if n > 0 {
        let vazio = Seq::<Registro>::empty();
        let antes = busca_ate(vazio, digitos, digitos, (n - 1) as nat);
        if antes.len() > 0 {
            lema_busca_completa(digitos, c, (n - 1) as nat);
        } else if diferencas(digitos, c) == n {
            lema_nivel_contem(antes, digitos, digitos, c);
        } else {
            lema_busca_variacoes(digitos, (n - 1) as nat);
            lema_busca_completa(digitos, c, (n - 1) as nat);
        }
    }
}

/// A completed search misses nothing. Every valid identifier within the distance of the last
/// level tried, other than the reference CPF itself, lies exactly at that distance and has
/// its display form among the results. So the results are the valid identifiers nearest to
/// the reference CPF, and where there is no result, no valid identifier differs from the
/// reference in one, two or three digits.
pub proof fn lei_busca_completa(digitos: Seq<char>, c: Seq<char>)
    requires
        eh_identificador(digitos),
        eh_identificador(c),
        cpf_valido(c),
        1 <= diferencas(digitos, c) <= niveis_tentados(
            Seq::empty(),
            digitos,
            digitos,
            NIVEL_MAXIMO as nat,
        ),
    ensures
        ja_existe(
            busca_ate(Seq::empty(), digitos, digitos, NIVEL_MAXIMO as nat),
            formatado(c),
        ),
        diferencas(digitos, c) == niveis_tentados(
            Seq::empty(),
            digitos,
            digitos,
            NIVEL_MAXIMO as nat,
        ),
{
    let rs = busca_ate(Seq::empty(), digitos, digitos, NIVEL_MAXIMO as nat);
    let k = niveis_tentados(Seq::empty(), digitos, digitos, NIVEL_MAXIMO as nat);
    lema_busca_completa(digitos, c, NIVEL_MAXIMO as nat);
    lei_resultados_da_busca(digitos);
    let i = choose|i: int| 0 <= i < rs.len() && (#[trigger] rs[i]).formatado == formatado(c);
    assert(eh_variacao(rs[i], digitos, k));
    let outro = choose|outro: Seq<char>|
        eh_identificador(outro) && #[trigger] cpf_valido(outro) && diferencas(digitos, outro) == k
            && rs[i].formatado == formatado(outro) && rs[i].diferencas == k;
    lei_formatar_e_limpar(outro);
    lei_formatar_e_limpar(c);
}

/// A search that stops at level `k` has tried the candidates of the levels up to `k` and no
/// others, and each of its results differs from the reference CPF in exactly `k` digits.
pub proof fn lei_busca_para_no_primeiro_nivel(antes: Visao, entrada: Seq<char>)
    requires
        apos_pedido(antes, entrada).estado == EstadoApp::Concluido,
    ensures
        ({
            let depois = apos_pedido(antes, entrada);
            let limpo = sem_pontuacao(entrada);
            let k = niveis_tentados(Seq::empty(), limpo, limpo, NIVEL_MAXIMO as nat);
            &&& 1 <= k <= NIVEL_MAXIMO
            &&& depois.total_verificados == candidatos_ate(k)
            &&& forall|i: int|
                0 <= i < depois.resultados.len() ==> (#[trigger] depois.resultados[i]).diferencas
                    == k
            &&& depois.total_verificados == 99 || depois.total_verificados == 4554
                || depois.total_verificados == CANDIDATOS_DA_BUSCA
        }),
{
    let depois = apos_pedido(antes, entrada);
    let limpo = sem_pontuacao(entrada);
    let k = niveis_tentados(Seq::empty(), limpo, limpo, NIVEL_MAXIMO as nat);
    lei_resultados_da_busca(limpo);
    lei_candidatos_por_nivel();
    assert forall|i: int| 0 <= i < depois.resultados.len() implies (
    #[trigger] depois.resultados[i]).diferencas == k by {
        assert(eh_variacao(depois.resultados[i], limpo, k));
    }
}

/// A search that ends without a result has tried every candidate of the three levels.
pub proof fn lei_busca_sem_resultado(antes: Visao, entrada: Seq<char>)
    requires
        apos_pedido(antes, entrada).estado == EstadoApp::Concluido,
        apos_pedido(antes, entrada).resultados.len() == 0,
    ensures
        apos_pedido(antes, entrada).total_verificados == CANDIDATOS_DA_BUSCA,
{
    let limpo = sem_pontuacao(entrada);
    lei_resultados_da_busca(limpo);
    lei_candidatos_por_nivel();
}

/// The same input always leads to the same results, in the same order, with the same count
/// of candidates tried, whatever the state was before.
pub proof fn lei_busca_deterministica(antes1: Visao, antes2: Visao, entrada: Seq<char>)
    ensures
        apos_pedido(antes1, entrada).resultados == apos_pedido(antes2, entrada).resultados,
        apos_pedido(antes1, entrada).total_verificados == apos_pedido(
            antes2,
            entrada,
        ).total_verificados,
        apos_pedido(antes1, entrada).estado == apos_pedido(antes2, entrada).estado,
        apos_pedido(antes1, entrada).erro == apos_pedido(antes2, entrada).erro,
{
}

} // verus!

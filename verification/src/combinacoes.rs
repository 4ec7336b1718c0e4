//! Every way of choosing `k` of the given positions, in lexicographic order.

use vstd::prelude::*;

verus! {

/// Pascal's rule: the number of `k`-element subsets of an `n`-element set.
pub open spec fn binomial(n: nat, k: nat) -> nat
    decreases n,
{
    if k == 0 {
        1
    } else if n == 0 {
        0
    } else {
        binomial((n - 1) as nat, (k - 1) as nat) + binomial((n - 1) as nat, k)
    }
}

/// Each sequence of `cs` with `prefixo` put in front of it.
pub open spec fn com_prefixo(prefixo: Seq<usize>, cs: Seq<Seq<usize>>) -> Seq<Seq<usize>> {
    Seq::new(cs.len(), |j: int| prefixo + cs[j])
}

/// The selections of `k` elements of `posicoes` taken at increasing indices, none of them
/// below `inicio`: first those that take `posicoes[inicio]`, then those that do not.
pub open spec fn combinacoes_desde(posicoes: Seq<usize>, k: nat, inicio: nat) -> Seq<Seq<usize>>
    decreases posicoes.len() - inicio,
{
    if k == 0 {
        seq![Seq::empty()]
    } else if inicio >= posicoes.len() {
        Seq::empty()
    } else {
        com_prefixo(
            seq![posicoes[inicio as int]],
            combinacoes_desde(posicoes, (k - 1) as nat, inicio + 1),
        ) + combinacoes_desde(posicoes, k, inicio + 1)
    }
}

/// The selections of `k` elements of `posicoes` taken at increasing indices.
pub open spec fn combinacoes(posicoes: Seq<usize>, k: nat) -> Seq<Seq<usize>> {
    combinacoes_desde(posicoes, k, 0)
}

/// What a partial selection `parcial` still lacks to reach `k` elements, chosen from
/// index `inicio` on. A selection that is already longer than `k` cannot be completed.
pub open spec fn complementos(posicoes: Seq<usize>, k: nat, inicio: nat, parcial: Seq<usize>) -> Seq<
    Seq<usize>,
> {
    if parcial.len() <= k {
        com_prefixo(parcial, combinacoes_desde(posicoes, (k - parcial.len()) as nat, inicio))
    } else {
        Seq::empty()
    }
}

/// The elements of `s` grow strictly from each index to the next.
pub open spec fn crescente(s: Seq<usize>) -> bool {
    forall|i: int, j: int| 0 <= i < j < s.len() ==> s[i] < s[j]
}

/// Every element of `c` is found in `posicoes` at index `inicio` or later.
pub open spec fn escolhida_de(c: Seq<usize>, posicoes: Seq<usize>, inicio: nat) -> bool {
    forall|t: int|
        0 <= t < c.len() ==> exists|i: int|
            inicio <= i < posicoes.len() && #[trigger] posicoes[i] == #[trigger] c[t]
}

/// `a` comes before `b` in lexicographic order: they agree up to some index at which `a`
/// holds the smaller element.
pub open spec fn precede(a: Seq<usize>, b: Seq<usize>) -> bool {
    exists|t: int|
        0 <= t < a.len() && t < b.len() && #[trigger] a.take(t) == b.take(t) && a[t] < b[t]
}

/// The contents of a vector of vectors.
pub open spec fn conteudo(vs: Seq<Vec<usize>>) -> Seq<Seq<usize>> {
    Seq::new(vs.len(), |i: int| vs[i]@)
}

/// All selections of `num_mudancas` elements of `posicoes`, in lexicographic order of the
/// indices chosen.
pub fn gerar_combinacoes(posicoes: &[usize], num_mudancas: usize) -> (resultado: Vec<Vec<usize>>)
    ensures
        conteudo(resultado@) == combinacoes(posicoes@, num_mudancas as nat),
{
    let mut resultado: Vec<Vec<usize>> = Vec::new();
    let mut combinacao: Vec<usize> = Vec::new();
    gerar_combinacoes_auxiliar(posicoes, num_mudancas, 0, &mut combinacao, &mut resultado);
    proof {
        let cs = combinacoes(posicoes@, num_mudancas as nat);
        assert(com_prefixo(Seq::empty(), cs) =~= cs) by {
            assert forall|j: int| 0 <= j < cs.len() implies Seq::<usize>::empty() + cs[j]
                == cs[j] by {
                assert(Seq::<usize>::empty() + cs[j] =~= cs[j]);
            }
        }
        assert(conteudo(Seq::<Vec<usize>>::empty()) + cs =~= cs);
    }
    resultado
}

/// Appends to `resultado` every completion of the partial selection `combinacao` to
/// `num_mudancas` elements, choosing from index `inicio` on, and leaves `combinacao` as it was.
pub fn gerar_combinacoes_auxiliar(
    posicoes: &[usize],
    num_mudancas: usize,
    inicio: usize,
    combinacao: &mut Vec<usize>,
    resultado: &mut Vec<Vec<usize>>,
)
    ensures
        final(combinacao)@ == old(combinacao)@,
        conteudo(final(resultado)@) == conteudo(old(resultado)@) + complementos(
            posicoes@,
            num_mudancas as nat,
            inicio as nat,
            old(combinacao)@,
        ),
    decreases posicoes.len() - inicio,
{
    let ghost parcial = combinacao@;
    let ghost antes = conteudo(resultado@);
    let ghost k = num_mudancas as nat;
    if combinacao.len() == num_mudancas {
        let copia = combinacao.clone();
        assert(copia@ =~= combinacao@);
        resultado.push(copia);
        proof {
            let vazio = seq![Seq::<usize>::empty()];
            assert(combinacoes_desde(posicoes@, 0, inicio as nat) == vazio);
            assert(parcial + Seq::<usize>::empty() =~= parcial);
            assert(conteudo(resultado@) =~= antes + com_prefixo(parcial, vazio));
        }
        return ;
    }
    let mut i: usize = inicio;
    while i < posicoes.len()
        invariant
            inicio <= i,
            i <= posicoes.len() || i == inicio,
            combinacao@ == parcial,
            parcial.len() != k,
            k == num_mudancas as nat,
            conteudo(resultado@) + complementos(posicoes@, k, i as nat, parcial) == antes
                + complementos(posicoes@, k, inicio as nat, parcial),
        decreases posicoes.len() - i,
    {
        let ghost feito = conteudo(resultado@);
        let ghost maior = parcial.push(posicoes@[i as int]);
        combinacao.push(posicoes[i]);
        gerar_combinacoes_auxiliar(posicoes, num_mudancas, i + 1, combinacao, resultado);
        combinacao.pop();
        proof {
            assert(combinacao@ =~= parcial);
            if parcial.len() < k {
                let falta = (k - parcial.len()) as nat;
                let com = combinacoes_desde(posicoes@, (falta - 1) as nat, (i + 1) as nat);
                let sem = combinacoes_desde(posicoes@, falta, (i + 1) as nat);
                let escolhido = seq![posicoes@[i as int]];
                assert(combinacoes_desde(posicoes@, falta, i as nat) == com_prefixo(escolhido, com)
                    + sem);
                assert(com_prefixo(maior, com) =~= com_prefixo(parcial, com_prefixo(escolhido, com)))
                    by {
                    assert forall|j: int| 0 <= j < com.len() implies maior + com[j] == parcial + (
                    escolhido + com[j]) by {
                        assert(maior + com[j] =~= parcial + (escolhido + com[j]));
                    }
                }
                assert(com_prefixo(parcial, com_prefixo(escolhido, com) + sem) =~= com_prefixo(
                    parcial,
                    com_prefixo(escolhido, com),
                ) + com_prefixo(parcial, sem));
                assert(complementos(posicoes@, k, (i + 1) as nat, maior) == com_prefixo(maior, com));
                assert(conteudo(resultado@) + complementos(posicoes@, k, (i + 1) as nat, parcial)
                    =~= feito + complementos(posicoes@, k, i as nat, parcial));
            } else {
                assert(complementos(posicoes@, k, (i + 1) as nat, maior) =~= Seq::empty());
                assert(conteudo(resultado@) =~= feito);
            }
        }
        i += 1;
    }
    proof {
        if parcial.len() < k {
            assert(complementos(posicoes@, k, i as nat, parcial) =~= Seq::empty());
        }
        assert(conteudo(resultado@) + Seq::<Seq<usize>>::empty() =~= conteudo(resultado@));
    }
}

/// The first binomial coefficients in closed form: `n`, `n(n-1)/2` and `n(n-1)(n-2)/6`.
pub proof fn lei_binomial_ate_tres(n: nat)
    ensures
        binomial(n, 1) == n,
        2 * binomial(n, 2) == n * (n - 1),
        6 * binomial(n, 3) == n * (n - 1) * (n - 2),
    decreases n,
{
    if n > 0 {
        let m = (n - 1) as nat;
        lei_binomial_ate_tres(m);
        assert(binomial(m, 0) == 1);
        assert(binomial(n, 1) == binomial(m, 0) + binomial(m, 1));
        assert(binomial(n, 2) == binomial(m, 1) + binomial(m, 2));
        assert(binomial(n, 3) == binomial(m, 2) + binomial(m, 3));
        assert(2 * m + m * (m - 1) == (m + 1) * m) by (nonlinear_arith);
        assert(3 * (m * (m - 1)) + m * (m - 1) * (m - 2) == (m + 1) * m * (m - 1))
            by (nonlinear_arith);
    }
}

proof fn lema_combinacoes_desde(posicoes: Seq<usize>, k: nat, inicio: nat)
    requires
        crescente(posicoes),
        inicio <= posicoes.len(),
    ensures
        combinacoes_desde(posicoes, k, inicio).len() == binomial(
            (posicoes.len() - inicio) as nat,
            k,
        ),
        forall|j: int|
            0 <= j < combinacoes_desde(posicoes, k, inicio).len() ==> {
                let c = #[trigger] combinacoes_desde(posicoes, k, inicio)[j];
                c.len() == k && crescente(c) && escolhida_de(c, posicoes, inicio)
            },
        forall|i: int, j: int|
            0 <= i < j < combinacoes_desde(posicoes, k, inicio).len() ==> precede(
                #[trigger] combinacoes_desde(posicoes, k, inicio)[i],
                #[trigger] combinacoes_desde(posicoes, k, inicio)[j],
            ),
    decreases posicoes.len() - inicio,
{
    let cs = combinacoes_desde(posicoes, k, inicio);
    if k == 0 {
        assert(cs[0] =~= Seq::<usize>::empty());
    } else if inicio >= posicoes.len() {
    } else {
        let x = posicoes[inicio as int];
        let caudas = combinacoes_desde(posicoes, (k - 1) as nat, inicio + 1);
        let com = com_prefixo(seq![x], caudas);
        let sem = combinacoes_desde(posicoes, k, inicio + 1);
        lema_combinacoes_desde(posicoes, (k - 1) as nat, inicio + 1);
        lema_combinacoes_desde(posicoes, k, inicio + 1);
        assert(cs == com + sem);
        assert forall|j: int| 0 <= j < cs.len() implies {
            let c = #[trigger] cs[j];
            c.len() == k && crescente(c) && escolhida_de(c, posicoes, inicio)
        } by {
            let c = cs[j];
            if j < com.len() {
                let cauda = caudas[j];
                assert(c == seq![x] + cauda);
                assert(escolhida_de(cauda, posicoes, inicio + 1));
                assert forall|t: int| 0 <= t < c.len() implies exists|i: int|
                    inicio <= i < posicoes.len() && #[trigger] posicoes[i] == #[trigger] c[t] by {
                    if t == 0 {
                        assert(posicoes[inicio as int] == c[0]);
                    } else {
                        assert(c[t] == cauda[t - 1]);
                        let i = choose|i: int|
                            inicio + 1 <= i < posicoes.len() && #[trigger] posicoes[i] == cauda[t
                                - 1];
                        assert(posicoes[i] == c[t]);
                    }
                }
                assert forall|a: int, b: int| 0 <= a < b < c.len() implies c[a] < c[b] by {
                    assert(c[b] == cauda[b - 1]);
                    if a == 0 {
                        let i = choose|i: int|
                            inicio + 1 <= i < posicoes.len() && #[trigger] posicoes[i] == cauda[b
                                - 1];
                        assert(posicoes[inicio as int] < posicoes[i]);
                    } else {
                        assert(c[a] == cauda[a - 1]);
                    }
                }
            } else {
                let d = sem[j - com.len()];
                assert(c == d);
                assert(escolhida_de(d, posicoes, inicio + 1));
                assert forall|t: int| 0 <= t < c.len() implies exists|i: int|
                    inicio <= i < posicoes.len() && #[trigger] posicoes[i] == #[trigger] c[t] by {
                    let i = choose|i: int|
                        inicio + 1 <= i < posicoes.len() && #[trigger] posicoes[i] == d[t];
                    assert(posicoes[i] == c[t]);
                }
            }
        }
        assert forall|i: int, j: int| 0 <= i < j < cs.len() implies precede(
            #[trigger] cs[i],
            #[trigger] cs[j],
        ) by {
            let a = cs[i];
            let b = cs[j];
            if j < com.len() {
                let ca = caudas[i];
                let cb = caudas[j];
                assert(precede(ca, cb));
                let t = choose|t: int|
                    0 <= t < ca.len() && t < cb.len() && #[trigger] ca.take(t) == cb.take(t)
                        && ca[t] < cb[t];
                assert(a == seq![x] + ca);
                assert(b == seq![x] + cb);
                assert(a.take(t + 1) =~= seq![x] + ca.take(t));
                assert(b.take(t + 1) =~= seq![x] + cb.take(t));
                assert(a[t + 1] == ca[t] && b[t + 1] == cb[t]);
            } else if i < com.len() {
                let d = sem[j - com.len()];
                assert(b == d);
                assert(a == seq![x] + caudas[i]);
                assert(escolhida_de(d, posicoes, inicio + 1));
                let p = choose|p: int|
                    inicio + 1 <= p < posicoes.len() && #[trigger] posicoes[p] == d[0];
                assert(posicoes[inicio as int] < posicoes[p]);
                assert(a.take(0) =~= b.take(0));
                assert(a[0] < b[0]);
            } else {
                assert(a == sem[i - com.len()]);
                assert(b == sem[j - com.len()]);
            }
        }
    }
}

proof fn lema_combinacoes_completas_desde(posicoes: Seq<usize>, c: Seq<usize>, inicio: nat)
    requires
        crescente(posicoes),
        crescente(c),
        escolhida_de(c, posicoes, inicio),
    ensures
        combinacoes_desde(posicoes, c.len(), inicio).contains(c),
    decreases posicoes.len() - inicio,
{
    let k = c.len();
    let cs = combinacoes_desde(posicoes, k, inicio);
    if k == 0 {
        assert(cs[0] =~= c);
    } else if inicio >= posicoes.len() {
        let i = choose|i: int| inicio <= i < posicoes.len() && #[trigger] posicoes[i] == c[0];
        assert(false);
    } else {
        let x = posicoes[inicio as int];
        let caudas = combinacoes_desde(posicoes, (k - 1) as nat, inicio + 1);
        let com = com_prefixo(seq![x], caudas);
        let sem = combinacoes_desde(posicoes, k, inicio + 1);
        assert(cs == com + sem);
        let i0 = choose|i: int| inicio <= i < posicoes.len() && #[trigger] posicoes[i] == c[0];
        if c[0] == x {
            let cauda = c.drop_first();
            assert(crescente(cauda)) by {
                assert forall|a: int, b: int| 0 <= a < b < cauda.len() implies cauda[a]
                    < cauda[b] by {
                    assert(cauda[a] == c[a + 1] && cauda[b] == c[b + 1]);
                }
            }
            assert forall|t: int| 0 <= t < cauda.len() implies exists|i: int|
                inicio + 1 <= i < posicoes.len() && #[trigger] posicoes[i] == #[trigger] cauda[t] by {
                assert(cauda[t] == c[t + 1]);
                let i = choose|i: int|
                    inicio <= i < posicoes.len() && #[trigger] posicoes[i] == c[t + 1];
                assert(c[0] < c[t + 1]);
                assert(i != inicio);
                assert(posicoes[i] == cauda[t]);
            }
            lema_combinacoes_completas_desde(posicoes, cauda, inicio + 1);
            let j = choose|j: int| 0 <= j < caudas.len() && caudas[j] == cauda;
            assert(com[j] == seq![x] + cauda);
            assert(seq![x] + cauda =~= c);
            assert(cs[j] == c);
        } else {
            assert(i0 != inicio);
            assert forall|t: int| 0 <= t < c.len() implies exists|i: int|
                inicio + 1 <= i < posicoes.len() && #[trigger] posicoes[i] == #[trigger] c[t] by {
                let i = choose|i: int|
                    inicio <= i < posicoes.len() && #[trigger] posicoes[i] == c[t];
                if i == inicio {
                    assert(t != 0);
                    assert(c[0] < c[t]);
                    assert(posicoes[inicio as int] < posicoes[i0]);
                    assert(false);
                }
                assert(posicoes[i] == c[t]);
            }
            lema_combinacoes_completas_desde(posicoes, c, inicio + 1);
            let j = choose|j: int| 0 <= j < sem.len() && sem[j] == c;
            assert(cs[com.len() + j] == c);
        }
    }
}

/// Every strictly growing selection from strictly growing positions is listed among the
/// selections of its length.
pub proof fn lei_combinacoes_completas(posicoes: Seq<usize>, c: Seq<usize>)
    requires
        crescente(posicoes),
        crescente(c),
        escolhida_de(c, posicoes, 0),
    ensures
        combinacoes(posicoes, c.len()).contains(c),
{
    lema_combinacoes_completas_desde(posicoes, c, 0);
}

/// A sequence does not come before itself.
pub proof fn lema_precede_distingue(a: Seq<usize>, b: Seq<usize>)
    requires
        precede(a, b),
    ensures
        a != b,
{
}

/// Of `n` strictly growing positions there are exactly `binomial(n, k)` selections of `k`.
/// Each selection has `k` elements, all taken from the positions and strictly growing, and
/// the selections are listed in strict lexicographic order, so none is listed twice.
pub proof fn lei_combinacoes(posicoes: Seq<usize>, k: nat)
    requires
        crescente(posicoes),
    ensures
        combinacoes(posicoes, k).len() == binomial(posicoes.len(), k),
        forall|j: int|
            0 <= j < combinacoes(posicoes, k).len() ==> {
                let c = #[trigger] combinacoes(posicoes, k)[j];
                c.len() == k && crescente(c) && escolhida_de(c, posicoes, 0)
            },
        forall|i: int, j: int|
            0 <= i < j < combinacoes(posicoes, k).len() ==> precede(
                #[trigger] combinacoes(posicoes, k)[i],
                #[trigger] combinacoes(posicoes, k)[j],
            ),
        forall|i: int, j: int|
            0 <= i < j < combinacoes(posicoes, k).len() ==> #[trigger] combinacoes(posicoes, k)[i]
                != #[trigger] combinacoes(posicoes, k)[j],
{
    lema_combinacoes_desde(posicoes, k, 0);
    let cs = combinacoes(posicoes, k);
    assert forall|i: int, j: int| 0 <= i < j < cs.len() implies #[trigger] cs[i]
        != #[trigger] cs[j] by {
        lema_precede_distingue(cs[i], cs[j]);
    }
}

} // verus!

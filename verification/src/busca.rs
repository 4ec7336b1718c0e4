//! The search: from a valid CPF to the valid CPFs that differ from it in the fewest digits.

use crate::candidatos::{
    eh_conjunto_de_posicoes, gerar_candidato, lei_candidato_difere_nas_posicoes,
    lema_potencia_cresce, potencia_de_nove,
};
use crate::combinacoes::{binomial, conteudo, crescente, gerar_combinacoes, lei_combinacoes};
use crate::estado::{registros, Aplicativo, ErroValidacao, EstadoApp, Registro, Resultado};
use crate::fronteira::validar;
use crate::modelo::{
    apos_candidatos, apos_conjuntos, apos_nivel, apos_pedido, busca_ate, candidatos_ate,
    candidatos_no_nivel, ja_existe, lei_candidatos_por_nivel, lema_busca_cresce,
    lema_busca_encerrada, lema_candidatos_crescem, lema_conjunto_do_nivel, niveis_tentados,
    posicoes_do_cpf, registrado, CANDIDATOS_DA_BUSCA, NIVEL_MAXIMO,
};
use crate::texto::{
    caracteres, contar_diferencas, diferencas, eh_identificador, formatado, formatar_cpf,
    remover_pontuacao, texto_de, verificar_identificador, TAMANHO_CPF,
};
use vstd::prelude::*;

verus! {

impl Aplicativo {
    /// Takes an input: checks it and, if it is a valid CPF, searches its variations.
    pub fn validar_e_buscar(&mut self, entrada: &str)
        ensures
            final(self)@ == apos_pedido(old(self)@, entrada@),
    {
        self.estado = EstadoApp::Validando;
        self.erro = None;
        self.resultados.clear();
        self.total_verificados = 0;
        assert(registros(self.resultados@) =~= Seq::empty());

        let cpf_limpo = remover_pontuacao(entrada);
        let digitos = caracteres(cpf_limpo.as_str());
        if !verificar_identificador(&digitos) {
            self.erro = Some(ErroValidacao::TamanhoInvalido);
            self.estado = EstadoApp::Entrada;
            return ;
        }
        if !validar(cpf_limpo.as_str()) {
            self.erro = Some(ErroValidacao::CpfInvalido);
            self.estado = EstadoApp::Entrada;
            return ;
        }
        self.cpf_original = cpf_limpo.clone();
        self.estado = EstadoApp::Buscando;
        self.buscar_variacoes(cpf_limpo);
    }

    /// Searches the variations of `cpf`: level 1, then 2, then 3, each level in full, and no
    /// level after one that added a result. Distances are counted from the reference CPF.
    pub fn buscar_variacoes(&mut self, cpf: String)
        requires
            eh_identificador(cpf@),
            old(self).total_verificados + CANDIDATOS_DA_BUSCA <= usize::MAX,
        ensures
            registros(final(self).resultados@) == busca_ate(
                registros(old(self).resultados@),
                old(self).cpf_original@,
                cpf@,
                NIVEL_MAXIMO as nat,
            ),
            final(self).total_verificados == old(self).total_verificados + candidatos_ate(
                niveis_tentados(
                    registros(old(self).resultados@),
                    old(self).cpf_original@,
                    cpf@,
                    NIVEL_MAXIMO as nat,
                ),
            ),
            final(self).estado == EstadoApp::Concluido,
            final(self).cpf_original == old(self).cpf_original,
            final(self).erro == old(self).erro,
    {
        let digitos_cpf = caracteres(cpf.as_str());
        let ghost rs = registros(self.resultados@);
        let ghost referencia = self.cpf_original@;
        let mut num_mudancas: usize = 1;
        let mut encontrado = false;
        proof {
            lei_candidatos_por_nivel();
        }
        while num_mudancas <= NIVEL_MAXIMO && !encontrado
            invariant
                1 <= num_mudancas <= NIVEL_MAXIMO + 1,
                digitos_cpf@ == cpf@,
                eh_identificador(cpf@),
                rs == registros(old(self).resultados@),
                referencia == old(self).cpf_original@,
                old(self).total_verificados + CANDIDATOS_DA_BUSCA <= usize::MAX,
                registros(self.resultados@) == busca_ate(
                    rs,
                    referencia,
                    cpf@,
                    (num_mudancas - 1) as nat,
                ),
                encontrado == (registros(self.resultados@).len() > rs.len()),
                !encontrado ==> niveis_tentados(rs, referencia, cpf@, (num_mudancas - 1) as nat)
                    == num_mudancas - 1,
                self.total_verificados == old(self).total_verificados + candidatos_ate(
                    niveis_tentados(rs, referencia, cpf@, (num_mudancas - 1) as nat),
                ),
                self.estado == old(self).estado,
                self.cpf_original == old(self).cpf_original,
                self.erro == old(self).erro,
            decreases NIVEL_MAXIMO + 1 - num_mudancas,
        {
            proof {
                lei_candidatos_por_nivel();
                reveal_with_fuel(candidatos_ate, 4);
                lema_busca_cresce(rs, referencia, cpf@, (num_mudancas - 1) as nat);
            }
            encontrado = self.encontrar_variacoes(digitos_cpf.as_slice(), num_mudancas);
            num_mudancas += 1;
        }
        proof {
            lema_busca_cresce(rs, referencia, cpf@, (num_mudancas - 1) as nat);
            if encontrado {
                lema_busca_encerrada(
                    rs,
                    referencia,
                    cpf@,
                    (num_mudancas - 1) as nat,
                    NIVEL_MAXIMO as nat,
                );
            }
        }
        self.estado = EstadoApp::Concluido;
    }

    /// Tries level `num_mudancas`: every candidate of every set of that many positions, the
    /// sets in lexicographic order. Answers whether the level added a result.
    pub fn encontrar_variacoes(&mut self, digitos_cpf: &[char], num_mudancas: usize) -> (encontrado:
        bool)
        requires
            eh_identificador(digitos_cpf@),
            old(self).total_verificados + candidatos_no_nivel(num_mudancas as nat) <= usize::MAX,
        ensures
            registros(final(self).resultados@) == apos_nivel(
                registros(old(self).resultados@),
                old(self).cpf_original@,
                digitos_cpf@,
                num_mudancas as nat,
            ),
            final(self).total_verificados == old(self).total_verificados + candidatos_no_nivel(
                num_mudancas as nat,
            ),
            encontrado == (final(self).resultados@.len() > old(self).resultados@.len()),
            final(self).estado == old(self).estado,
            final(self).cpf_original == old(self).cpf_original,
            final(self).erro == old(self).erro,
    {
        let mut posicoes: Vec<usize> = Vec::new();
        let mut p: usize = 0;
        while p < TAMANHO_CPF
            invariant
                p <= TAMANHO_CPF,
                posicoes@ == posicoes_do_cpf().take(p as int),
            decreases TAMANHO_CPF - p,
        {
            posicoes.push(p);
            p += 1;
        }
        assert(posicoes@ == posicoes_do_cpf());
        let combinacoes = gerar_combinacoes(posicoes.as_slice(), num_mudancas);

        let ghost k = num_mudancas as nat;
        let ghost conjuntos = conteudo(combinacoes@);
        let ghost por_conjunto = potencia_de_nove(k);
        let ghost rs = registros(self.resultados@);
        let mut encontrado = false;
        let mut m: usize = 0;
        while m < combinacoes.len()
            invariant
                m <= combinacoes.len(),
                k == num_mudancas as nat,
                conjuntos == conteudo(combinacoes@),
                conjuntos == crate::combinacoes::combinacoes(posicoes_do_cpf(), k),
                por_conjunto == potencia_de_nove(k),
                rs == registros(old(self).resultados@),
                eh_identificador(digitos_cpf@),
                old(self).total_verificados + candidatos_no_nivel(k) <= usize::MAX,
                self.total_verificados == old(self).total_verificados + m * por_conjunto,
                registros(self.resultados@) == apos_conjuntos(
                    rs,
                    old(self).cpf_original@,
                    digitos_cpf@,
                    conjuntos,
                    m as nat,
                ),
                self.resultados@.len() >= old(self).resultados@.len(),
                encontrado == (self.resultados@.len() > old(self).resultados@.len()),
                self.estado == old(self).estado,
                self.cpf_original == old(self).cpf_original,
                self.erro == old(self).erro,
            decreases combinacoes.len() - m,
        {
            proof {
                lema_conjunto_do_nivel(k, m as int);
                let c = binomial(TAMANHO_CPF as nat, k);
                assert((m + 1) * por_conjunto <= c * por_conjunto) by (nonlinear_arith)
                    requires
                        m + 1 <= c,
                        por_conjunto >= 0,
                ;
                assert((m + 1) * por_conjunto == m * por_conjunto + por_conjunto)
                    by (nonlinear_arith);
                assert(combinacoes@[m as int]@ == conjuntos[m as int]);
            }
            if self.tentar_combinacoes_digitos(digitos_cpf, combinacoes[m].as_slice()) {
                encontrado = true;
            }
            proof {
                lema_candidatos_crescem(
                    apos_conjuntos(rs, old(self).cpf_original@, digitos_cpf@, conjuntos, m as nat),
                    old(self).cpf_original@,
                    digitos_cpf@,
                    conjuntos[m as int],
                    por_conjunto,
                );
            }
            m += 1;
        }
        proof {
            if combinacoes.len() > 0 {
                lema_conjunto_do_nivel(k, 0);
            } else {
                assert(crescente(posicoes_do_cpf()));
                lei_combinacoes(posicoes_do_cpf(), k);
            }
        }
        encontrado
    }

    /// Tries every candidate of one set of positions, in order of index: each is counted,
    /// handed to the validator and, if valid and new, recorded. Answers whether any was
    /// recorded.
    pub fn tentar_combinacoes_digitos(&mut self, digitos_cpf: &[char], posicoes: &[usize]) -> (encontrado:
        bool)
        requires
            eh_identificador(digitos_cpf@),
            eh_conjunto_de_posicoes(posicoes@),
            old(self).total_verificados + potencia_de_nove(posicoes@.len()) <= usize::MAX,
        ensures
            registros(final(self).resultados@) == apos_candidatos(
                registros(old(self).resultados@),
                old(self).cpf_original@,
                digitos_cpf@,
                posicoes@,
                potencia_de_nove(posicoes@.len()),
            ),
            final(self).total_verificados == old(self).total_verificados + potencia_de_nove(
                posicoes@.len(),
            ),
            encontrado == (final(self).resultados@.len() > old(self).resultados@.len()),
            final(self).estado == old(self).estado,
            final(self).cpf_original == old(self).cpf_original,
            final(self).erro == old(self).erro,
    {
        proof {
            lema_potencia_cresce(0, posicoes@.len());
        }
        let total_combinacoes = nove_elevado(posicoes.len());
        let mut encontrado = false;
        let mut i: usize = 0;
        while i < total_combinacoes
            invariant
                i <= total_combinacoes,
                total_combinacoes == potencia_de_nove(posicoes@.len()),
                eh_identificador(digitos_cpf@),
                eh_conjunto_de_posicoes(posicoes@),
                old(self).total_verificados + total_combinacoes <= usize::MAX,
                self.total_verificados == old(self).total_verificados + i,
                registros(self.resultados@) == apos_candidatos(
                    registros(old(self).resultados@),
                    old(self).cpf_original@,
                    digitos_cpf@,
                    posicoes@,
                    i as nat,
                ),
                self.resultados@.len() >= old(self).resultados@.len(),
                encontrado == (self.resultados@.len() > old(self).resultados@.len()),
                self.estado == old(self).estado,
                self.cpf_original == old(self).cpf_original,
                self.erro == old(self).erro,
            decreases total_combinacoes - i,
        {
            let candidato = gerar_candidato(digitos_cpf, posicoes, i);
            self.total_verificados += 1;
            let candidato_str = texto_de(&candidato);
            proof {
                lei_candidato_difere_nas_posicoes(digitos_cpf@, posicoes@, i as nat);
            }
            let valido = validar(candidato_str.as_str());
            let ghost antes = registros(self.resultados@);
            if self.registrar_candidato(candidato_str.as_str(), valido) {
                encontrado = true;
            }
            assert(registros(self.resultados@).len() >= antes.len());
            i += 1;
        }
        encontrado
    }

    /// Records the validator's verdict on one candidate.
    ///
    /// A valid candidate whose display form is not yet among the results is appended, with
    /// its distance from the reference CPF; the answer says whether that happened.
    pub fn registrar_candidato(&mut self, candidato: &str, valido: bool) -> (novo: bool)
        requires
            valido ==> candidato@.len() == TAMANHO_CPF,
        ensures
            registros(final(self).resultados@) == registrado(
                registros(old(self).resultados@),
                old(self).cpf_original@,
                candidato@,
                valido,
            ),
            novo == (valido && !ja_existe(registros(old(self).resultados@), formatado(candidato@))),
            final(self).estado == old(self).estado,
            final(self).cpf_original == old(self).cpf_original,
            final(self).erro == old(self).erro,
            final(self).total_verificados == old(self).total_verificados,
    {
        if !valido {
            return false;
        }
        let formatado = formatar_cpf(candidato);
        if self.ja_registrado(&formatado) {
            return false;
        }
        let num_diferencas = contar_diferencas(self.cpf_original.as_str(), candidato);
        self.resultados.push(Resultado { cpf_formatado: formatado, num_diferencas });
        assert(registros(self.resultados@) =~= registros(old(self).resultados@).push(
            Registro {
                formatado: crate::texto::formatado(candidato@),
                diferencas: diferencas(old(self).cpf_original@, candidato@),
            },
        ));
        true
    }

    /// Whether some result already has the display form `formatado`.
    fn ja_registrado(&self, formatado: &String) -> (r: bool)
        ensures
            r == ja_existe(registros(self.resultados@), formatado@),
    {
        let mut i: usize = 0;
        while i < self.resultados.len()
            invariant
                i <= self.resultados.len(),
                forall|j: int| 0 <= j < i ==> self.resultados@[j].cpf_formatado@ != formatado@,
            decreases self.resultados.len() - i,
        {
            if self.resultados[i].cpf_formatado == *formatado {
                assert(registros(self.resultados@)[i as int].formatado == formatado@);
                return true;
            }
            i += 1;
        }
        false
    }
}

/// Nine to the power `k`.
fn nove_elevado(k: usize) -> (r: usize)
    requires
        potencia_de_nove(k as nat) <= usize::MAX,
    ensures
        r == potencia_de_nove(k as nat),
{
    let mut r: usize = 1;
    let mut j: usize = 0;
    while j < k
        invariant
            j <= k,
            r == potencia_de_nove(j as nat),
            potencia_de_nove(k as nat) <= usize::MAX,
        decreases k - j,
    {
        proof {
            lema_potencia_cresce((j + 1) as nat, k as nat);
        }
        r = r * 9;
        j += 1;
    }
    r
}

} // verus!

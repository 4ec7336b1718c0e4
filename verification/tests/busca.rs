use cpf_quilingue::{Aplicativo, ErroValidacao, EstadoApp, Resultado};

fn resultado(cpf_formatado: &str, num_diferencas: usize) -> Resultado {
    Resultado { cpf_formatado: cpf_formatado.to_string(), num_diferencas }
}

fn buscar(entrada: &str) -> Aplicativo {
    let mut app = Aplicativo::novo();
    app.validar_e_buscar(entrada);
    app
}

#[test]
fn estado_inicial() {
    let app = Aplicativo::novo();
    assert_eq!(app.estado, EstadoApp::Entrada);
    assert_eq!(app.cpf_original, "");
    assert!(app.resultados.is_empty());
    assert_eq!(app.erro, None);
    assert_eq!(app.total_verificados, 0);
}

#[test]
fn estado_padrao_e_o_inicial() {
    let app = Aplicativo::default();
    assert_eq!(app.estado, EstadoApp::Entrada);
    assert_eq!(app.cpf_original, "");
    assert!(app.resultados.is_empty());
    assert_eq!(app.erro, None);
    assert_eq!(app.total_verificados, 0);
}

#[test]
fn entrada_com_dez_digitos_e_recusada_pelo_tamanho() {
    let app = buscar("111.444.777-3");
    assert_eq!(app.erro, Some(ErroValidacao::TamanhoInvalido));
    assert_eq!(app.estado, EstadoApp::Entrada);
    assert!(app.resultados.is_empty());
    assert_eq!(app.total_verificados, 0);
}

#[test]
fn entrada_com_doze_digitos_e_recusada_pelo_tamanho() {
    let app = buscar("111.444.777-350");
    assert_eq!(app.erro, Some(ErroValidacao::TamanhoInvalido));
    assert_eq!(app.estado, EstadoApp::Entrada);
}

#[test]
fn entrada_vazia_e_recusada_pelo_tamanho() {
    assert_eq!(buscar("").erro, Some(ErroValidacao::TamanhoInvalido));
    assert_eq!(buscar("...---").erro, Some(ErroValidacao::TamanhoInvalido));
}

#[test]
fn entrada_com_outros_caracteres_e_recusada_pelo_tamanho() {
    assert_eq!(buscar("111 444 777 35").erro, Some(ErroValidacao::TamanhoInvalido));
    assert_eq!(buscar("abcdefghijk").erro, Some(ErroValidacao::TamanhoInvalido));
    assert_eq!(buscar("abcdefgh272").erro, Some(ErroValidacao::TamanhoInvalido));
    assert_eq!(buscar("1114447773é").erro, Some(ErroValidacao::TamanhoInvalido));
}

#[test]
fn pontuacao_fora_do_lugar_nao_impede_a_busca() {
    let app = buscar("111.444.77735");
    assert_eq!(app.erro, None);
    assert_eq!(app.estado, EstadoApp::Concluido);
    assert_eq!(app.cpf_original, "11144477735");
}

#[test]
fn onze_digitos_com_digito_verificador_errado() {
    let app = buscar("38521139038");
    assert_eq!(app.erro, Some(ErroValidacao::CpfInvalido));
    assert_eq!(app.estado, EstadoApp::Entrada);
    assert!(app.resultados.is_empty());
    assert_eq!(app.total_verificados, 0);
}

#[test]
fn onze_digitos_iguais_sao_recusados_pelo_validador() {
    assert_eq!(buscar("111.111.111-11").erro, Some(ErroValidacao::CpfInvalido));
    assert_eq!(buscar("00000000000").erro, Some(ErroValidacao::CpfInvalido));
}

#[test]
fn mensagens_de_erro() {
    assert_eq!(ErroValidacao::TamanhoInvalido.mensagem(), "CPF deve ter 11 dígitos!");
    assert_eq!(ErroValidacao::CpfInvalido.mensagem(), "CPF inválido!");
}

#[test]
fn variacao_de_dois_digitos() {
    let app = buscar("111.444.777-35");
    assert_eq!(app.erro, None);
    assert_eq!(app.estado, EstadoApp::Concluido);
    assert_eq!(app.cpf_original, "11144477735");
    assert_eq!(app.resultados, vec![resultado("111.444.779-05", 2)]);
    assert_eq!(app.total_verificados, 99 + 4455);
}

#[test]
fn outras_variacoes_de_dois_digitos() {
    let app = buscar("38521139039");
    assert_eq!(app.resultados, vec![resultado("385.211.392-09", 2)]);
    assert_eq!(app.total_verificados, 4554);
    let app = buscar("529.982.247-25");
    assert_eq!(app.resultados, vec![resultado("529.982.257-05", 2)]);
    assert_eq!(app.total_verificados, 4554);
}

#[test]
fn varias_variacoes_de_dois_digitos_na_ordem_da_busca() {
    let app = buscar("083.016.613-05");
    assert_eq!(app.total_verificados, 4554);
    assert_eq!(app.resultados.len(), 29);
    assert!(app.resultados.iter().all(|r| r.num_diferencas == 2));
    let formatados: Vec<&str> = app.resultados.iter().map(|r| r.cpf_formatado.as_str()).collect();
    assert_eq!(
        formatados[..8],
        [
            "064.016.613-05",
            "013.616.613-05",
            "033.056.613-05",
            "043.019.613-05",
            "093.016.413-05",
            "053.016.633-05",
            "023.016.613-00",
            "080.216.613-05",
        ]
    );
    assert_eq!(formatados[27..], ["083.016.653-00", "083.016.619-09"]);
}

#[test]
fn variacoes_de_um_digito_encerram_a_busca_no_primeiro_nivel() {
    let app = buscar("478.245.040-00");
    assert_eq!(
        app.resultados,
        vec![resultado("378.245.040-00", 1), resultado("478.243.040-00", 1)]
    );
    assert_eq!(app.total_verificados, 99);
    let app = buscar("52601815906");
    assert_eq!(app.resultados, vec![resultado("626.018.159-06", 1)]);
    assert_eq!(app.total_verificados, 99);
}

#[test]
fn sem_variacao_de_um_ou_dois_digitos_a_busca_percorre_os_tres_niveis() {
    let app = buscar("628.194.821-12");
    assert_eq!(app.estado, EstadoApp::Concluido);
    assert_eq!(app.total_verificados, 99 + 4455 + 120285);
    assert_eq!(app.total_verificados, 124839);
    assert_eq!(app.resultados.len(), 1276);
    assert!(app.resultados.iter().all(|r| r.num_diferencas == 3));
    assert_eq!(app.resultados[0], resultado("970.194.821-12", 3));
    assert_eq!(app.resultados[1], resultado("032.194.821-12", 3));
    assert_eq!(app.resultados[1274], resultado("628.194.827-08", 3));
    assert_eq!(app.resultados[1275], resultado("628.194.828-99", 3));
}

#[test]
fn resultados_nao_repetem_e_sao_cpfs_validos() {
    for entrada in ["08301661305", "62819482112", "47824504000"] {
        let app = buscar(entrada);
        for (i, r) in app.resultados.iter().enumerate() {
            assert!(cpf::valid(&r.cpf_formatado));
            assert_ne!(r.cpf_formatado, cpf_quilingue::formatar_cpf(entrada));
            assert_eq!(
                cpf_quilingue::contar_diferencas(
                    entrada,
                    &cpf_quilingue::remover_pontuacao(&r.cpf_formatado)
                ),
                r.num_diferencas
            );
            for s in &app.resultados[i + 1..] {
                assert_ne!(r.cpf_formatado, s.cpf_formatado);
            }
        }
    }
}

#[test]
fn a_mesma_entrada_da_os_mesmos_resultados() {
    for entrada in ["111.444.777-35", "08301661305", "62819482112", "38521139038", "123"] {
        let a = buscar(entrada);
        let b = buscar(entrada);
        assert_eq!(a.resultados, b.resultados);
        assert_eq!(a.total_verificados, b.total_verificados);
        assert_eq!(a.estado, b.estado);
        assert_eq!(a.erro, b.erro);
    }
}

#[test]
fn nova_busca_esquece_a_anterior() {
    let mut app = buscar("08301661305");
    assert_eq!(app.resultados.len(), 29);
    app.validar_e_buscar("111.444.777-35");
    assert_eq!(app.cpf_original, "11144477735");
    assert_eq!(app.resultados, vec![resultado("111.444.779-05", 2)]);
    assert_eq!(app.total_verificados, 4554);
}

#[test]
fn entrada_recusada_limpa_os_resultados_e_guarda_a_referencia() {
    let mut app = buscar("111.444.777-35");
    app.validar_e_buscar("123");
    assert_eq!(app.erro, Some(ErroValidacao::TamanhoInvalido));
    assert_eq!(app.estado, EstadoApp::Entrada);
    assert!(app.resultados.is_empty());
    assert_eq!(app.total_verificados, 0);
    assert_eq!(app.cpf_original, "11144477735");
    app.validar_e_buscar("38521139039");
    assert_eq!(app.erro, None);
    assert_eq!(app.resultados, vec![resultado("385.211.392-09", 2)]);
}

#[test]
fn resetar_volta_ao_estado_inicial() {
    let mut app = buscar("111.444.777-35");
    assert_eq!(app.estado, EstadoApp::Concluido);
    app.resetar();
    assert_eq!(app.estado, EstadoApp::Entrada);
    assert_eq!(app.cpf_original, "");
    assert!(app.resultados.is_empty());
    assert_eq!(app.erro, None);
    assert_eq!(app.total_verificados, 0);
}

#[test]
fn resetar_apos_erro() {
    let mut app = buscar("123");
    assert_eq!(app.estado, EstadoApp::Entrada);
    app.resetar();
    assert_eq!(app.erro, None);
    assert_eq!(app.estado, EstadoApp::Entrada);
}

#[test]
fn registrar_candidato_valido_e_novo() {
    let mut app = Aplicativo::novo();
    app.cpf_original = "11144477735".to_string();
    assert!(app.registrar_candidato("11144477905", true));
    assert_eq!(app.resultados, vec![resultado("111.444.779-05", 2)]);
    assert_eq!(app.total_verificados, 0);
    assert_eq!(app.estado, EstadoApp::Entrada);
}

#[test]
fn registrar_candidato_invalido_nada_muda() {
    let mut app = Aplicativo::novo();
    app.cpf_original = "11144477735".to_string();
    assert!(!app.registrar_candidato("11144477905", false));
    assert!(app.resultados.is_empty());
}

#[test]
fn registrar_candidato_repetido_fica_o_primeiro() {
    let mut app = Aplicativo::novo();
    app.cpf_original = "11144477735".to_string();
    assert!(app.registrar_candidato("11144477905", true));
    assert!(app.registrar_candidato("21144477736", true));
    app.cpf_original = "00000000000".to_string();
    assert!(!app.registrar_candidato("11144477905", true));
    assert_eq!(
        app.resultados,
        vec![resultado("111.444.779-05", 2), resultado("211.444.777-36", 2)]
    );
}

#[test]
fn tentar_um_conjunto_de_posicoes() {
    let digitos: Vec<char> = "11144477735".chars().collect();
    let mut app = Aplicativo::novo();
    app.cpf_original = "11144477735".to_string();
    assert!(!app.tentar_combinacoes_digitos(&digitos, &[8]));
    assert_eq!(app.total_verificados, 9);
    assert!(app.resultados.is_empty());
    assert!(app.tentar_combinacoes_digitos(&digitos, &[8, 9]));
    assert_eq!(app.total_verificados, 9 + 81);
    assert_eq!(app.resultados, vec![resultado("111.444.779-05", 2)]);
    assert!(!app.tentar_combinacoes_digitos(&digitos, &[8, 9]));
    assert_eq!(app.total_verificados, 9 + 81 + 81);
    assert_eq!(app.resultados, vec![resultado("111.444.779-05", 2)]);
}

#[test]
fn tentar_sem_posicoes_julga_o_proprio_cpf() {
    let digitos: Vec<char> = "11144477735".chars().collect();
    let mut app = Aplicativo::novo();
    app.cpf_original = "11144477735".to_string();
    assert!(app.tentar_combinacoes_digitos(&digitos, &[]));
    assert_eq!(app.total_verificados, 1);
    assert_eq!(app.resultados, vec![resultado("111.444.777-35", 0)]);
}

#[test]
fn encontrar_variacoes_por_nivel() {
    let digitos: Vec<char> = "11144477735".chars().collect();
    let mut app = Aplicativo::novo();
    app.cpf_original = "11144477735".to_string();
    assert!(!app.encontrar_variacoes(&digitos, 1));
    assert_eq!(app.total_verificados, 99);
    assert!(app.resultados.is_empty());
    assert!(app.encontrar_variacoes(&digitos, 2));
    assert_eq!(app.total_verificados, 99 + 4455);
    assert_eq!(app.resultados, vec![resultado("111.444.779-05", 2)]);
    assert!(app.encontrar_variacoes(&digitos, 3));
    assert_eq!(app.total_verificados, 99 + 4455 + 120285);
    assert!(app.resultados.len() > 1);
    assert!(app.resultados[1..].iter().all(|r| r.num_diferencas == 3));
}

#[test]
fn buscar_variacoes_conta_a_partir_do_estado_atual() {
    let mut app = Aplicativo::novo();
    app.cpf_original = "11144477735".to_string();
    app.total_verificados = 1000;
    app.buscar_variacoes("11144477735".to_string());
    assert_eq!(app.estado, EstadoApp::Concluido);
    assert_eq!(app.total_verificados, 1000 + 4554);
    assert_eq!(app.resultados, vec![resultado("111.444.779-05", 2)]);
}

/// Every string of eleven digits that differs from `referencia` in exactly `k` places.
fn vizinhos(referencia: &str, k: usize) -> Vec<String> {
    let base: Vec<u8> = referencia.bytes().collect();
    let mut todos = vec![base.clone()];
    let mut escolhidas: Vec<Vec<usize>> = vec![Vec::new()];
    for _ in 0..k {
        let mut proximos = Vec::new();
        let mut proximas_escolhidas = Vec::new();
        for (texto, posicoes) in todos.iter().zip(&escolhidas) {
            let inicio = posicoes.last().map_or(0, |p| p + 1);
            for p in inicio..11 {
                for d in b'0'..=b'9' {
                    if d != base[p] {
                        let mut novo = texto.clone();
                        novo[p] = d;
                        proximos.push(novo);
                        let mut com = posicoes.clone();
                        com.push(p);
                        proximas_escolhidas.push(com);
                    }
                }
            }
        }
        todos = proximos;
        escolhidas = proximas_escolhidas;
    }
    todos.into_iter().map(|t| String::from_utf8(t).unwrap()).collect()
}

#[test]
fn a_busca_encontra_todos_os_cpfs_validos_mais_proximos() {
    for (entrada, nivel) in [("47824504000", 1), ("08301661305", 2), ("11144477735", 2)] {
        let app = buscar(entrada);
        for k in 1..nivel {
            assert!(vizinhos(entrada, k).iter().all(|v| !cpf::valid(v)));
        }
        let mut esperados: Vec<String> = vizinhos(entrada, nivel)
            .into_iter()
            .filter(|v| cpf::valid(v))
            .map(|v| cpf_quilingue::formatar_cpf(&v))
            .collect();
        let mut encontrados: Vec<String> =
            app.resultados.iter().map(|r| r.cpf_formatado.clone()).collect();
        esperados.sort();
        encontrados.sort();
        assert_eq!(encontrados, esperados);
        assert!(!encontrados.is_empty());
    }
}

#[test]
fn vizinhos_de_um_e_dois_digitos() {
    assert_eq!(vizinhos("11144477735", 1).len(), 99);
    assert_eq!(vizinhos("11144477735", 2).len(), 4455);
}

use cpf_quilingue::texto::{caracteres, texto_de, verificar_identificador};
use cpf_quilingue::{contar_diferencas, formatar_cpf, remover_pontuacao};

#[test]
fn formata_em_grupos_de_tres_tres_tres_e_dois() {
    assert_eq!(formatar_cpf("11144477735"), "111.444.777-35");
    assert_eq!(formatar_cpf("38521139039"), "385.211.390-39");
    assert_eq!(formatar_cpf("00000000000"), "000.000.000-00");
}

#[test]
fn formata_qualquer_texto_de_onze_caracteres() {
    assert_eq!(formatar_cpf("abcdefghijk"), "abc.def.ghi-jk");
}

#[test]
fn remove_pontos_e_tracos() {
    assert_eq!(remover_pontuacao("111.444.777-35"), "11144477735");
    assert_eq!(remover_pontuacao("11144477735"), "11144477735");
    assert_eq!(remover_pontuacao("..--.."), "");
    assert_eq!(remover_pontuacao(""), "");
    assert_eq!(remover_pontuacao("-1.2-3."), "123");
}

#[test]
fn remove_apenas_pontos_e_tracos() {
    assert_eq!(remover_pontuacao("111 444,777/35"), "111 444,777/35");
    assert_eq!(remover_pontuacao("a.b-c"), "abc");
}

#[test]
fn formatar_e_limpar_devolve_o_original() {
    for s in ["11144477735", "38521139039", "00000000000", "99999999999", "01234567890"] {
        assert_eq!(remover_pontuacao(&formatar_cpf(s)), s);
    }
}

#[test]
fn conta_as_posicoes_diferentes() {
    assert_eq!(contar_diferencas("11144477735", "11144477735"), 0);
    assert_eq!(contar_diferencas("11144477735", "11144477905"), 2);
    assert_eq!(contar_diferencas("11144477735", "21144477736"), 2);
    assert_eq!(contar_diferencas("00000000000", "11111111111"), 11);
    assert_eq!(contar_diferencas("12345678901", "12345678900"), 1);
}

#[test]
fn diferencas_e_simetrica() {
    let pares = [
        ("11144477735", "11144477905"),
        ("38521139039", "11144477735"),
        ("00000000000", "00000000001"),
        ("123", "12345"),
    ];
    for (a, b) in pares {
        assert_eq!(contar_diferencas(a, b), contar_diferencas(b, a));
    }
}

#[test]
fn diferencas_zero_somente_para_textos_iguais() {
    let textos = ["11144477735", "11144477736", "21144477735", "38521139039"];
    for a in textos {
        for b in textos {
            assert_eq!(contar_diferencas(a, b) == 0, a == b);
        }
    }
}

#[test]
fn diferencas_de_comprimentos_desiguais_param_no_mais_curto() {
    assert_eq!(contar_diferencas("123", "12345"), 0);
    assert_eq!(contar_diferencas("12345", "193"), 1);
    assert_eq!(contar_diferencas("", "12345"), 0);
}

#[test]
fn caracteres_e_texto_sao_inversos() {
    assert_eq!(caracteres("385.211"), vec!['3', '8', '5', '.', '2', '1', '1']);
    assert_eq!(caracteres(""), Vec::<char>::new());
    assert_eq!(texto_de(&vec!['3', '8', '5']), "385");
    assert_eq!(texto_de(&Vec::new()), "");
    assert_eq!(texto_de(&caracteres("dígitos")), "dígitos");
}

#[test]
fn identificador_tem_onze_digitos() {
    assert!(verificar_identificador(&caracteres("11144477735")));
    assert!(verificar_identificador(&caracteres("00000000000")));
    assert!(!verificar_identificador(&caracteres("1114447773")));
    assert!(!verificar_identificador(&caracteres("111444777350")));
    assert!(!verificar_identificador(&caracteres("1114447773x")));
    assert!(!verificar_identificador(&caracteres("111.444.777-35")));
    assert!(!verificar_identificador(&caracteres("")));
    assert!(!verificar_identificador(&caracteres("1114447773/")));
    assert!(!verificar_identificador(&caracteres("1114447773:")));
}

use cpf_quilingue::gerar_candidato;

fn digitos(s: &str) -> Vec<char> {
    s.chars().collect()
}

fn texto(cs: &[char]) -> String {
    cs.iter().collect()
}

#[test]
fn candidatos_de_uma_posicao() {
    let d = digitos("11144477735");
    assert_eq!(texto(&gerar_candidato(&d, &[0], 0)), "01144477735");
    assert_eq!(texto(&gerar_candidato(&d, &[0], 1)), "21144477735");
    assert_eq!(texto(&gerar_candidato(&d, &[0], 8)), "91144477735");
    assert_eq!(texto(&gerar_candidato(&d, &[10], 4)), "11144477734");
    assert_eq!(texto(&gerar_candidato(&d, &[10], 5)), "11144477736");
}

#[test]
fn candidatos_de_duas_e_tres_posicoes() {
    let d = digitos("11144477735");
    assert_eq!(texto(&gerar_candidato(&d, &[3, 10], 0)), "11104477730");
    assert_eq!(texto(&gerar_candidato(&d, &[3, 10], 13)), "11154477731");
    assert_eq!(texto(&gerar_candidato(&d, &[3, 10], 80)), "11194477739");
    assert_eq!(texto(&gerar_candidato(&d, &[0, 5, 9], 100)), "21144277715");
    assert_eq!(texto(&gerar_candidato(&d, &[0, 5, 9], 728)), "91144977795");
}

#[test]
fn a_primeira_posicao_consome_o_digito_de_menor_peso() {
    let d = digitos("55555555555");
    // 13 = 4 + 1 * 9: displacement 4 at the first position, 1 at the second.
    assert_eq!(texto(&gerar_candidato(&d, &[2, 7], 13)), "55455551555");
    assert_eq!(texto(&gerar_candidato(&d, &[7, 2], 13)), "55155554555");
}

#[test]
fn o_digito_original_e_pulado() {
    let zero = digitos("00000000000");
    let nove = digitos("99999999999");
    let cinco = digitos("55555555555");
    for i in 0..9 {
        assert_eq!(gerar_candidato(&zero, &[4], i)[4], char::from_digit(i as u32 + 1, 10).unwrap());
        assert_eq!(gerar_candidato(&nove, &[4], i)[4], char::from_digit(i as u32, 10).unwrap());
    }
    let vistos: Vec<char> = (0..9).map(|i| gerar_candidato(&cinco, &[4], i)[4]).collect();
    assert_eq!(vistos, vec!['0', '1', '2', '3', '4', '6', '7', '8', '9']);
}

#[test]
fn sem_posicoes_o_candidato_e_o_original() {
    let d = digitos("11144477735");
    assert_eq!(gerar_candidato(&d, &[], 0), d);
    assert_eq!(gerar_candidato(&d, &[], 5), d);
}

#[test]
fn indice_alem_do_total_ignora_os_digitos_que_sobram() {
    let d = digitos("11144477735");
    assert_eq!(gerar_candidato(&d, &[0], 9), gerar_candidato(&d, &[0], 0));
    assert_eq!(gerar_candidato(&d, &[0], 9 + 3), gerar_candidato(&d, &[0], 3));
}

#[test]
fn nove_elevado_a_k_candidatos_distintos() {
    let d = digitos("38521139039");
    let conjuntos: [&[usize]; 3] = [&[6], &[1, 9], &[0, 4, 10]];
    for posicoes in conjuntos {
        let total = 9usize.pow(posicoes.len() as u32);
        let mut vistos: Vec<Vec<char>> = Vec::new();
        for i in 0..total {
            let c = gerar_candidato(&d, posicoes, i);
            assert_eq!(c.len(), 11);
            assert!(c.iter().all(|x| x.is_ascii_digit()));
            for q in 0..11 {
                assert_eq!(c[q] != d[q], posicoes.contains(&q));
            }
            assert!(!vistos.contains(&c));
            vistos.push(c);
        }
        assert_eq!(vistos.len(), total);
    }
}

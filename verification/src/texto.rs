//! Digit strings: reading, cleaning, formatting and comparing them.

use crate::fronteira::acrescentar;
use vstd::prelude::*;
use vstd::string::*;

verus! {

/// Number of digits of a CPF.
pub const TAMANHO_CPF: usize = 11;

/// `c` is one of the ASCII digits `'0'..='9'`.
pub open spec fn eh_digito(c: char) -> bool {
    '0' <= c && c <= '9'
}

/// `s` is an identifier: exactly eleven ASCII digits.
pub open spec fn eh_identificador(s: Seq<char>) -> bool {
    &&& s.len() == TAMANHO_CPF
    &&& forall|i: int| 0 <= i < s.len() ==> eh_digito(#[trigger] s[i])
}

/// `c` is one of the two punctuation marks of the display form.
pub open spec fn eh_pontuacao(c: char) -> bool {
    c == '.' || c == '-'
}

/// `s` without its punctuation marks.
pub open spec fn sem_pontuacao(s: Seq<char>) -> Seq<char> {
    s.filter(|c: char| !eh_pontuacao(c))
}

/// The display form `DDD.DDD.DDD-DD` of an eleven-character string.
pub open spec fn formatado(s: Seq<char>) -> Seq<char> {
    s.subrange(0, 3) + seq!['.'] + s.subrange(3, 6) + seq!['.'] + s.subrange(6, 9) + seq!['-']
        + s.subrange(9, 11)
}

/// Number of indices below `n` at which `a` and `b` hold different characters.
pub open spec fn diferencas_ate(a: Seq<char>, b: Seq<char>, n: nat) -> nat
    decreases n,
{
    if n == 0 {
        0
    } else {
        diferencas_ate(a, b, (n - 1) as nat) + if a[n - 1] != b[n - 1] {
            1nat
        } else {
            0nat
        }
    }
}

/// Number of aligned positions at which `a` and `b` differ, over their common length.
pub open spec fn diferencas(a: Seq<char>, b: Seq<char>) -> nat {
    diferencas_ate(a, b, if a.len() <= b.len() { a.len() } else { b.len() })
}

/// The characters of `s`, in order.
pub fn caracteres(s: &str) -> (r: Vec<char>)
    ensures
        r@ == s@,
{
    let mut r: Vec<char> = Vec::new();
    for c in it: s.chars()
        invariant
            r@ == it.seq().take(it.index()),
            it.seq() == s@,
    {
        r.push(c);
    }
    r
}

/// The string made of the characters of `cs`, in order.
pub fn texto_de(cs: &Vec<char>) -> (s: String)
    ensures
        s@ == cs@,
{
    let mut s = String::new();
    let mut i: usize = 0;
    while i < cs.len()
        invariant
            i <= cs.len(),
            s@ == cs@.take(i as int),
        decreases cs.len() - i,
    {
        acrescentar(&mut s, cs[i]);
        i += 1;
    }
    s
}

/// Whether `cs` holds exactly eleven ASCII digits.
pub fn verificar_identificador(cs: &Vec<char>) -> (r: bool)
    ensures
        r == eh_identificador(cs@),
{
    if cs.len() != TAMANHO_CPF {
        return false;
    }
    let mut i: usize = 0;
    while i < cs.len()
        invariant
            i <= cs.len(),
            cs.len() == TAMANHO_CPF,
            forall|j: int| 0 <= j < i ==> eh_digito(#[trigger] cs@[j]),
        decreases cs.len() - i,
    {
        let c = cs[i];
        if !(c >= '0' && c <= '9') {
            return false;
        }
        i += 1;
    }
    true
}

/// Removes every `.` and `-` from `entrada`, keeping all other characters in order.
pub fn remover_pontuacao(entrada: &str) -> (limpo: String)
    ensures
        limpo@ == sem_pontuacao(entrada@),
{
    let mut limpo = String::new();
    for c in it: entrada.chars()
        invariant
            limpo@ == sem_pontuacao(it.seq().take(it.index())),
            it.seq() == entrada@,
    {
        proof {
            let antes = it.seq().take(it.index());
            let depois = it.seq().take(it.index() + 1);
            assert(depois.drop_last() == antes);
            assert(depois.last() == c);
            assert(sem_pontuacao(depois) == if eh_pontuacao(c) {
                sem_pontuacao(antes)
            } else {
                sem_pontuacao(antes).push(c)
            }) by {
                reveal(Seq::filter);
            }
        }
        if c != '.' && c != '-' {
            acrescentar(&mut limpo, c);
        }
    }
    proof {
        assert(entrada@.take(entrada@.len() as int) == entrada@);
    }
    limpo
}

/// Renders an eleven-character string as `DDD.DDD.DDD-DD`.
pub fn formatar_cpf(cpf: &str) -> (r: String)
    requires
        cpf@.len() == TAMANHO_CPF,
    ensures
        r@ == formatado(cpf@),
{
    proof {
        reveal_strlit(".");
        reveal_strlit("-");
        assert("."@ == seq!['.']);
        assert("-"@ == seq!['-']);
    }
    let mut r = String::new();
    r.append(cpf.substring_char(0, 3));
    r.append(".");
    r.append(cpf.substring_char(3, 6));
    r.append(".");
    r.append(cpf.substring_char(6, 9));
    r.append("-");
    r.append(cpf.substring_char(9, 11));
    r
}

/// Counts the aligned positions at which the two strings hold different characters.
///
/// Positions beyond the end of the shorter string are not compared.
pub fn contar_diferencas(cpf1: &str, cpf2: &str) -> (n: usize)
    ensures
        n == diferencas(cpf1@, cpf2@),
{
    let a = caracteres(cpf1);
    let b = caracteres(cpf2);
    let limite = if a.len() <= b.len() { a.len() } else { b.len() };
    let mut n: usize = 0;
    let mut i: usize = 0;
    while i < limite
        invariant
            i <= limite,
            limite <= a.len(),
            limite <= b.len(),
            n <= i,
            n == diferencas_ate(a@, b@, i as nat),
        decreases limite - i,
    {
        if a[i] != b[i] {
            n += 1;
        }
        i += 1;
    }
    n
}

proof fn lema_diferencas_ate_simetrica(a: Seq<char>, b: Seq<char>, n: nat)
    ensures
        diferencas_ate(a, b, n) == diferencas_ate(b, a, n),
    decreases n,
{
    if n > 0 {
        lema_diferencas_ate_simetrica(a, b, (n - 1) as nat);
    }
}

proof fn lema_diferencas_ate_zero(a: Seq<char>, b: Seq<char>, n: nat)
    ensures
        diferencas_ate(a, b, n) == 0 <==> forall|i: int| 0 <= i < n ==> a[i] == b[i],
    decreases n,
{
    if n > 0 {
        lema_diferencas_ate_zero(a, b, (n - 1) as nat);
    }
}

proof fn lema_sem_pontuacao_identidade(s: Seq<char>)
    requires
        forall|i: int| 0 <= i < s.len() ==> !eh_pontuacao(#[trigger] s[i]),
    ensures
        sem_pontuacao(s) == s,
    decreases s.len(),
{
    reveal(Seq::filter);
    if s.len() > 0 {
        lema_sem_pontuacao_identidade(s.drop_last());
        assert(s.drop_last().push(s.last()) == s);
    }
}

/// Changing one character of `b`, from one that agrees with `a` to one that does not, adds
/// one to the number of differences counted over a range that holds its index.
pub proof fn lema_diferencas_com_troca(a: Seq<char>, b: Seq<char>, p: int, x: char, n: nat)
    requires
        0 <= p < b.len(),
        p < a.len(),
        n <= b.len(),
        a[p] == b[p],
        x != a[p],
    ensures
        diferencas_ate(a, b.update(p, x), n) == diferencas_ate(a, b, n) + if p < n {
            1nat
        } else {
            0nat
        },
    decreases n,
{
    if n > 0 {
        lema_diferencas_com_troca(a, b, p, x, (n - 1) as nat);
    }
}

/// The digit distance does not depend on the order of its two arguments.
pub proof fn lei_diferencas_simetrica(a: Seq<char>, b: Seq<char>)
    ensures
        diferencas(a, b) == diferencas(b, a),
{
    let n: nat = if a.len() <= b.len() { a.len() } else { b.len() };
    lema_diferencas_ate_simetrica(a, b, n);
}

/// Two strings of the same length are at distance zero exactly when they are equal.
pub proof fn lei_diferencas_zero(a: Seq<char>, b: Seq<char>)
    requires
        a.len() == b.len(),
    ensures
        diferencas(a, b) == 0 <==> a == b,
{
    lema_diferencas_ate_zero(a, b, a.len());
    if diferencas(a, b) == 0 {
        assert(a =~= b);
    }
}

/// Formatting an identifier and then removing the punctuation gives the identifier back.
pub proof fn lei_formatar_e_limpar(s: Seq<char>)
    requires
        eh_identificador(s),
    ensures
        sem_pontuacao(formatado(s)) == s,
{
    let pred = |c: char| !eh_pontuacao(c);
    let primeiro = s.subrange(0, 3);
    let segundo = s.subrange(3, 6);
    let terceiro = s.subrange(6, 9);
    let ultimo = s.subrange(9, 11);
    let ponto = seq!['.'];
    let traco = seq!['-'];
    lema_sem_pontuacao_identidade(primeiro);
    lema_sem_pontuacao_identidade(segundo);
    lema_sem_pontuacao_identidade(terceiro);
    lema_sem_pontuacao_identidade(ultimo);
    assert(ponto.filter(pred) == Seq::<char>::empty()) by {
        reveal(Seq::filter);
        assert(ponto.drop_last().filter(pred) == Seq::<char>::empty());
    }
    assert(traco.filter(pred) == Seq::<char>::empty()) by {
        reveal(Seq::filter);
        assert(traco.drop_last().filter(pred) == Seq::<char>::empty());
    }
    let ate2 = primeiro + ponto;
    let ate3 = ate2 + segundo;
    let ate4 = ate3 + ponto;
    let ate5 = ate4 + terceiro;
    let ate6 = ate5 + traco;
    Seq::filter_distributes_over_add(primeiro, ponto, pred);
    Seq::filter_distributes_over_add(ate2, segundo, pred);
    Seq::filter_distributes_over_add(ate3, ponto, pred);
    Seq::filter_distributes_over_add(ate4, terceiro, pred);
    Seq::filter_distributes_over_add(ate5, traco, pred);
    Seq::filter_distributes_over_add(ate6, ultimo, pred);
    assert(primeiro + segundo + terceiro + ultimo =~= s);
}

} // verus!

//! The state of a search and what it stands for.

use vstd::prelude::*;

verus! {

/// Where a search stands.
#[derive(Debug, Clone, Copy, PartialEq, Eq, Structural)]
pub enum EstadoApp {
    /// Waiting for an input; also the state after a rejected input and after a reset.
    Entrada,
    /// An input is being checked.
    Validando,
    /// The input was accepted and its variations are being tried.
    Buscando,
    /// The search has run to its end.
    Concluido,
}

/// Why an input was not searched.
#[derive(Debug, Clone, Copy, PartialEq, Eq, Structural)]
pub enum ErroValidacao {
    /// Without its punctuation the input is not made of exactly eleven digits.
    TamanhoInvalido,
    /// The input has eleven digits, but the checksum validator rejects them.
    CpfInvalido,
}

/// The text of the message of each error.
pub open spec fn mensagem_de(erro: ErroValidacao) -> Seq<char> {
    match erro {
        ErroValidacao::TamanhoInvalido => "CPF deve ter 11 dígitos!"@,
        ErroValidacao::CpfInvalido => "CPF inválido!"@,
    }
}

impl ErroValidacao {
    /// The message that tells the user of the error.
    pub fn mensagem(&self) -> (m: String)
        ensures
            m@ == mensagem_de(*self),
    {
        match self {
            ErroValidacao::TamanhoInvalido => "CPF deve ter 11 dígitos!".to_owned(),
            ErroValidacao::CpfInvalido => "CPF inválido!".to_owned(),
        }
    }
}

/// One valid variation that the search found.
#[derive(Debug, PartialEq, Eq)]
pub struct Resultado {
    /// The variation in display form, `DDD.DDD.DDD-DD`.
    pub cpf_formatado: String,
    /// In how many digits the variation differs from the reference CPF.
    pub num_diferencas: usize,
}

/// What a `Resultado` stands for.
pub struct Registro {
    pub formatado: Seq<char>,
    pub diferencas: nat,
}

impl View for Resultado {
    type V = Registro;

    open spec fn view(&self) -> Registro {
        Registro { formatado: self.cpf_formatado@, diferencas: self.num_diferencas as nat }
    }
}

/// What a list of results stands for.
pub open spec fn registros(rs: Seq<Resultado>) -> Seq<Registro> {
    Seq::new(rs.len(), |i: int| rs[i]@)
}

/// The search state: the reference CPF, what was found for it and how much was tried.
pub struct Aplicativo {
    pub estado: EstadoApp,
    /// The CPF being searched, eleven digits without punctuation.
    pub cpf_original: String,
    /// The valid variations found, in the order in which the search met them.
    pub resultados: Vec<Resultado>,
    /// Why the last input was rejected, if it was.
    pub erro: Option<ErroValidacao>,
    /// How many candidates were handed to the validator.
    pub total_verificados: usize,
}

/// What an `Aplicativo` stands for.
pub struct Visao {
    pub estado: EstadoApp,
    pub cpf_original: Seq<char>,
    pub resultados: Seq<Registro>,
    pub erro: Option<ErroValidacao>,
    pub total_verificados: nat,
}

impl View for Aplicativo {
    type V = Visao;

    open spec fn view(&self) -> Visao {
        Visao {
            estado: self.estado,
            cpf_original: self.cpf_original@,
            resultados: registros(self.resultados@),
            erro: self.erro,
            total_verificados: self.total_verificados as nat,
        }
    }
}

/// The state before any input: nothing sought, nothing found, nothing tried.
pub open spec fn visao_inicial() -> Visao {
    Visao {
        estado: EstadoApp::Entrada,
        cpf_original: Seq::empty(),
        resultados: Seq::empty(),
        erro: None,
        total_verificados: 0,
    }
}

impl Default for Aplicativo {
    fn default() -> (app: Aplicativo)
        ensures
            app@ == visao_inicial(),
    {
        Aplicativo::novo()
    }
}

impl Aplicativo {
    /// A search state that waits for its first input.
    pub fn novo() -> (app: Aplicativo)
        ensures
            app@ == visao_inicial(),
    {
        let app = Aplicativo {
            estado: EstadoApp::Entrada,
            cpf_original: String::new(),
            resultados: Vec::new(),
            erro: None,
            total_verificados: 0,
        };
        assert(registros(app.resultados@) =~= Seq::empty());
        app
    }

    /// Forgets the reference CPF and everything found for it, and waits for input again.
    ///
    /// A search that is under way cannot be reset.
    pub fn resetar(&mut self)
        requires
            old(self).estado == EstadoApp::Entrada || old(self).estado == EstadoApp::Concluido,
        ensures
            final(self)@ == visao_inicial(),
    {
        *self = Aplicativo::novo();
    }
}

} // verus!

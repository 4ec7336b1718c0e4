//! Search for valid CPF numbers at minimal digit distance from a given valid CPF.
//!
//! Given a valid CPF, the search replaces one digit, then two, then three, by every other
//! digit, keeps the replacements that the checksum validator accepts, and stops after the
//! first number of replaced digits that yields a valid CPF.
//!
//! - [`texto`]: digit strings, their display form and their distance.
//! - [`combinacoes`]: the sets of positions to replace.
//! - [`candidatos`]: the replacements of one set of positions.
//! - [`estado`]: the state of a search.
//! - [`modelo`]: what a search computes, as mathematics.
//! - [`busca`]: the search itself.
//! - [`leis`]: what holds of every completed search.
//! - [`fronteira`]: the calls whose behaviour is assumed.

pub mod busca;
pub mod candidatos;
pub mod combinacoes;
pub mod estado;
pub mod fronteira;
pub mod leis;
pub mod modelo;
pub mod texto;

pub use candidatos::gerar_candidato;
pub use combinacoes::{gerar_combinacoes, gerar_combinacoes_auxiliar};
pub use estado::{Aplicativo, ErroValidacao, EstadoApp, Resultado};
pub use texto::{contar_diferencas, formatar_cpf, remover_pontuacao};

//! Question content and answer judging.
//!
//! The question kinds form a closed set of variants: free-text questions
//! with accepted answers, numeric questions judged within a relative
//! range, and vocabulary words judged by their translations.  (Union
//! sets carry no content of their own; they are resolved by the
//! dependency resolver.)  Presenting a question is the surrounding
//! program's business; the judgement of a response lives here.

use vstd::prelude::*;

verus! {

/// The presentation collaborator: something that can put one question to
/// the user and report whether the answer was correct.  Failures abort
/// the session rather than counting as incorrect.
pub trait QuestionRunner {
    fn run(&self) -> Result<bool, String>;

    fn name(&self) -> String;
}

/// The content of one question, as a closed set of variants.
#[derive(Clone, Debug)]
pub enum RunnerData {
    Default { question: String, answers: Vec<String> },
    NumericRange { question: String, answer: i64, range_permille: u32 },
    Vocab { word: String, definition: String, example: String, translations: Vec<String> },
}

/// The header every item-set descriptor starts with: its name and which
/// kind of set it defines.
#[derive(Clone, Debug)]
pub struct BaseQuestionSet {
    pub name: String,
    pub type_: String,
}

/// A full item-set descriptor: the header, the items it owns, and the
/// kind-specific data.
#[derive(Clone, Debug)]
pub struct QuestionFactoryModel<T1: QuestionRunner, T2> {
    pub name: String,
    pub type_: String,
    pub items: Vec<T1>,
    pub data: T2,
}

/// A set descriptor without items of its own, e.g. a union set.
#[derive(Clone, Debug)]
pub struct QuestionSetFactoryModel<T> {
    pub name: String,
    pub type_: String,
    pub data: T,
}

/// Relies on str::to_lowercase: the result depends on the characters
/// alone, by the Unicode lowercase mapping.
#[verifier::external_body]
fn lowercase(s: &str) -> (r: String)
    ensures
        r@ == lower_of(s@),
{
    s.to_lowercase()
}

/// What str::to_lowercase returns for a given character sequence.
pub uninterp spec fn lower_of(s: Seq<char>) -> Seq<char>;

/// Whether `given` matches one of the accepted answers, compared
/// case-insensitively: the judgement of a free-text question.
pub fn matches_any_answer(answers: &Vec<String>, given: &String) -> (r: bool)
    ensures
        r == exists|i: int|
            0 <= i < answers@.len() && lower_of((#[trigger] answers@[i])@) == lower_of(given@),
{
    let given_lower = lowercase(given.as_str());
    let mut i: usize = 0;
    while i < answers.len()
        invariant
            i <= answers@.len(),
            given_lower@ == lower_of(given@),
            forall|t: int|
                0 <= t < i ==> lower_of((#[trigger] answers@[t])@) != lower_of(given@),
        decreases answers@.len() - i,
    {
        let candidate = lowercase(answers[i].as_str());
        if candidate == given_lower {
            return true;
        }
        i = i + 1;
    }
    false
}

/// Truncating division by 1000, rounding toward zero as a float-to-int
/// cast would.
pub open spec fn trunc_div_1000(p: int) -> int {
    if p >= 0 {
        p / 1000
    } else {
        -((-p) / 1000)
    }
}

/// The lower bound a numeric answer may reach: `answer * (1 - range)`
/// with `range` in thousandths, truncated toward zero.
pub open spec fn numeric_lo(answer: int, range_permille: int) -> int {
    trunc_div_1000(answer * (1000 - range_permille))
}

/// The upper bound: `answer * (1 + range)`, truncated toward zero.
pub open spec fn numeric_hi(answer: int, range_permille: int) -> int {
    trunc_div_1000(answer * (1000 + range_permille))
}

/// Division by 1000 truncated toward zero, over a product that exceeds
/// `i64` but fits comfortably in `i128`.
fn trunc_div_1000_exec(p: i128) -> (r: i128)
    requires
        -0x4000_0000_0000_0000_0000_0000_0000_0000 <= p <= 0x4000_0000_0000_0000_0000_0000_0000_0000,
    ensures
        r == trunc_div_1000(p as int),
{
    if p >= 0 {
        ((p as u128) / 1000) as i128
    } else {
        -((((-p) as u128) / 1000) as i128)
    }
}

/// The judgement of a numeric-range question: whether `given` lies
/// within `range_permille` thousandths of the expected answer, both
/// bounds truncated toward zero.
pub fn numeric_in_range(answer: i64, range_permille: u32, given: i64) -> (r: bool)
    ensures
        r == (numeric_lo(answer as int, range_permille as int) <= given as int <= numeric_hi(
            answer as int,
            range_permille as int,
        )),
{
    let lo_factor: i128 = 1000i128 - (range_permille as i128);
    let hi_factor: i128 = 1000i128 + (range_permille as i128);
    proof {
        assert(-0x4000_0000_0000_0000_0000_0000_0000_0000 <= (answer as int) * (lo_factor as int)
            <= 0x4000_0000_0000_0000_0000_0000_0000_0000) by (nonlinear_arith)
            requires
                -0x8000_0000_0000_0000 <= answer as int <= 0x8000_0000_0000_0000,
                -0x1_0000_0000_0000 <= lo_factor as int <= 0x1_0000_0000_0000,
        {}
        assert(-0x4000_0000_0000_0000_0000_0000_0000_0000 <= (answer as int) * (hi_factor as int)
            <= 0x4000_0000_0000_0000_0000_0000_0000_0000) by (nonlinear_arith)
            requires
                -0x8000_0000_0000_0000 <= answer as int <= 0x8000_0000_0000_0000,
                -0x1_0000_0000_0000 <= hi_factor as int <= 0x1_0000_0000_0000,
        {}
    }
    let lo = trunc_div_1000_exec((answer as i128) * lo_factor);
    let hi = trunc_div_1000_exec((answer as i128) * hi_factor);
    lo <= (given as i128) && (given as i128) <= hi
}

/// Whether `given` is one of the accepted translations, compared
/// exactly.
pub fn vocab_translation_valid(translations: &Vec<String>, given: &String) -> (r: bool)
    ensures
        r == exists|i: int| 0 <= i < translations@.len() && (#[trigger] translations@[i])@ == given@,
{
    let mut i: usize = 0;
    while i < translations.len()
        invariant
            i <= translations@.len(),
            forall|t: int| 0 <= t < i ==> (#[trigger] translations@[t])@ != given@,
        decreases translations@.len() - i,
    {
        if translations[i] == *given {
            return true;
        }
        i = i + 1;
    }
    false
}

/// The judgement of a vocabulary question: the given translation must be
/// accepted and the user must confirm knowing the definition.
pub fn judge_vocab(translations: &Vec<String>, given: &String, knew_definition: bool) -> (r: bool)
    ensures
        r == (knew_definition && exists|i: int|
            0 <= i < translations@.len() && (#[trigger] translations@[i])@ == given@),
{
    let valid = vocab_translation_valid(translations, given);
    valid && knew_definition
}

} // verus!

//! Checks of request parameters shared by the statistics functions.
use vstd::prelude::*;
use crate::error::{EngineError, ErrorCode};
use crate::expr::name_view;
use crate::number::{decimal, rat_int, rat_text, Number};
use crate::text::str_eq;
use vstd::string::*;

verus! {

/// The path of element `i` of the argument `name`: `name[i]`.
pub open spec fn indexed_path(name: Seq<char>, i: nat) -> Seq<char> {
    name + "["@ + decimal(i) + "]"@
}

/// The path `name[i]` of an element of an argument.
pub fn index_path(name: &str, i: usize) -> (r: String)
    ensures
        r@ == indexed_path(name@, i as nat),
{
    let digits = Number::from_u64(i as u64).to_text();
    proof {
        assert(Seq::<char>::empty() + decimal(i as nat) =~= decimal(i as nat));
    }
    String::from_str(name).concat("[").concat(digits.as_str()).concat("]")
}

/// The chosen variant of the parameter `name`: the default when none is
/// given, the given text when it is one of the variants, otherwise a domain
/// violation located at `name`.
pub fn parse_choice(name: &str, value: Option<&str>, default: &str, variants: &[&str]) -> (r: Result<
    String,
    EngineError,
>)
    ensures
        value is None ==> (r matches Ok(s) && s@ == default@),
        value matches Some(t) ==> (r is Ok <==> exists|i: int|
            0 <= i < variants@.len() && (#[trigger] variants@[i])@ == t@),
        value matches Some(t) ==> (r matches Ok(s) ==> s@ == t@),
        r matches Err(e) ==> e.code == ErrorCode::DomainViolation,
        r matches Err(e) ==> (e.path matches Some(p) && p@ == name@),
{
    match value {
        None => Ok(String::from_str(default)),
        Some(text) => {
            let mut i: usize = 0;
            while i < variants.len()
                invariant
                    i <= variants@.len(),
                    value == Some(text),
                    forall|j: int| 0 <= j < i ==> (#[trigger] variants@[j])@ != text@,
                decreases variants.len() - i,
            {
                if str_eq(variants[i], text) {
                    assert((variants@[i as int])@ == text@);
                    return Ok(String::from_str(text));
                }
                i = i + 1;
            }
            Err(EngineError::domain("unknown choice").with_path(String::from_str(name)))
        },
    }
}

/// The whole number `name` as a `u64`: negative values and values beyond
/// `u64` are domain violations located at `name`.
pub fn non_negative_u64(value: &Number, name: &str) -> (r: Result<u64, EngineError>)
    requires
        value@.den == 1,
    ensures
        r is Ok <==> 0 <= value@.num <= u64::MAX,
        r matches Ok(k) ==> value@ == rat_int(k as int),
        r matches Err(e) ==> e.code == ErrorCode::DomainViolation,
        r matches Err(e) ==> (e.path matches Some(p) && p@ == name@),
{
    if value.is_negative() {
        return Err(
            EngineError::domain("value must be a non-negative integer").with_path(
                String::from_str(name),
            ),
        );
    }
    match value.to_u64() {
        Some(k) => Ok(k),
        None => Err(
            EngineError::domain("value is too large for the supported range").with_path(
                String::from_str(name),
            ),
        ),
    }
}

/// A count of successes out of `n` trials: `n` a whole number of at least
/// one within `u64`, and the successes a whole number between zero and `n`.
/// Every violation is a domain violation; the trials are checked first, and
/// the error is located at `{prefix}n` or `{prefix}successes`.
pub fn validate_successes(successes: &Number, n: &Number, prefix: &str) -> (r: Result<
    (u64, u64),
    EngineError,
>)
    requires
        successes@.den == 1,
        n@.den == 1,
    ensures
        r is Ok <==> 1 <= n@.num <= u64::MAX && 0 <= successes@.num <= n@.num,
        r matches Ok(p) ==> p.0 == successes@.num && p.1 == n@.num,
        r matches Err(e) ==> e.code == ErrorCode::DomainViolation,
        r matches Err(e) ==> (e.path matches Some(p) && p@ == prefix@ + if 1 <= n@.num
            <= u64::MAX {
            "successes"@
        } else {
            "n"@
        }),
{
    let n_path = String::from_str(prefix).concat("n");
    let n_value = non_negative_u64(n, n_path.as_str())?;
    if n_value == 0 {
        return Err(EngineError::domain("n must be at least 1").with_path(n_path));
    }
    let s_path = String::from_str(prefix).concat("successes");
    let s_value = non_negative_u64(successes, s_path.as_str())?;
    if s_value > n_value {
        return Err(
            EngineError::domain("successes must be between 0 and n inclusive").with_path(s_path),
        );
    }
    Ok((s_value, n_value))
}

/// Row `i` of a count table is refused: it is empty, or its length differs
/// from that of the first row.
pub open spec fn bad_row(lens: Seq<usize>, i: int) -> bool {
    lens[i] == 0 || (i > 0 && lens[i] != lens[0])
}

/// `i` is the first refused row.
pub open spec fn first_bad_row(lens: Seq<usize>, i: int) -> bool {
    &&& 0 <= i < lens.len()
    &&& bad_row(lens, i)
    &&& forall|j: int| 0 <= j < i ==> !bad_row(lens, j)
}

/// The shape of a contingency table given as rows of counts, from the row
/// lengths: rows and columns, each at least two. An empty table, an empty
/// row and a table with fewer than two rows or columns are domain
/// violations, a row of another length than the first is malformed; a row
/// error is located at `name[i]` for the first refused row `i`, the others at
/// `name`.
pub fn count_table_shape(name: &str, lens: &Vec<usize>) -> (r: Result<(usize, usize), EngineError>)
    ensures
        r is Ok <==> lens.len() >= 2 && lens[0] >= 2 && forall|i: int|
            0 <= i < lens.len() ==> !bad_row(lens@, i),
        r matches Ok(shape) ==> shape.0 == lens.len() && shape.1 == lens[0],
        r matches Err(e) ==> match name_view(e.path) {
            Some(p) => if lens.len() > 0 && exists|i: int| 0 <= i < lens.len() && bad_row(lens@, i) {
                let i = choose|i: int| first_bad_row(lens@, i);
                &&& p == indexed_path(name@, i as nat)
                &&& e.code == if lens[i] == 0 {
                    ErrorCode::DomainViolation
                } else {
                    ErrorCode::MalformedInput
                }
            } else {
                p == name@ && e.code == ErrorCode::DomainViolation
            },
            None => false,
        },
{
    if lens.len() == 0 {
        return Err(
            EngineError::domain("the contingency table must not be empty").with_path(
                String::from_str(name),
            ),
        );
    }
    let mut i: usize = 0;
    while i < lens.len()
        invariant
            0 < lens.len(),
            i <= lens.len(),
            forall|j: int| 0 <= j < i ==> !bad_row(lens@, j),
        decreases lens.len() - i,
    {
        if lens[i] == 0 || (i > 0 && lens[i] != lens[0]) {
            proof {
                let k = choose|k: int| first_bad_row(lens@, k);
                assert(first_bad_row(lens@, i as int));
                assert(first_bad_row(lens@, k));
                if k < i {
                    assert(!bad_row(lens@, k));
                } else if i < k {
                    assert(!bad_row(lens@, i as int));
                }
            }
            let path = index_path(name, i);
            if lens[i] == 0 {
                return Err(
                    EngineError::domain("the contingency table must not be empty").with_path(path),
                );
            }
            return Err(EngineError::malformed("ragged contingency table").with_path(path));
        }
        i = i + 1;
    }
    if lens.len() < 2 || lens[0] < 2 {
        return Err(
            EngineError::domain(
                "the contingency table must have at least two rows and two columns",
            ).with_path(String::from_str(name)),
        );
    }
    Ok((lens.len(), lens[0]))
}

} // verus!

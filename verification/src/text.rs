//! Amounts and names as text for people to read.

use vstd::prelude::*;
use vstd::string::StringExecFns;
use rust_decimal::Decimal;
use crate::transaction::names_of;

verus! {

/// What `rust_decimal` writes for the decimal number `mantissa / 10^scale`.
pub uninterp spec fn decimal_to_string(mantissa: int, scale: nat) -> Seq<char>;

/// The text of an amount of `hundredths`: the decimal number with two
/// places, as `rust_decimal` writes it.
pub open spec fn amount_text(hundredths: int) -> Seq<char> {
    decimal_to_string(hundredths, 2)
}

/// The names of `names`, with `,` between them.
pub open spec fn joined(names: Seq<Seq<char>>) -> Seq<char>
    decreases names.len(),
{
    if names.len() == 0 {
        Seq::empty()
    } else if names.len() == 1 {
        names[0]
    } else {
        joined(names.drop_last()) + ","@ + names.last()
    }
}

/// Makes the decimal number `hundredths / 100` with `Decimal::new` and
/// hands back what `to_string` writes for it. The contract claims only
/// that the text is a function of the number, and names it.
#[verifier::external_body]
pub(crate) fn write_amount(hundredths: i64) -> (text: String)
    ensures
        text@ == decimal_to_string(hundredths as int, 2),
{
    Decimal::new(hundredths, 2).to_string()
}

/// The text of an amount: the number as it was written, a blank, and the
/// code of the currency.
pub fn with_code(number: String, code: &str) -> (text: String)
    ensures
        text@ == number@ + " "@ + code@,
{
    let mut text = number;
    text.append(" ");
    text.append(code);
    text
}

/// The names of `names`, with `,` between them.
pub fn join_names(names: &Vec<String>) -> (text: String)
    ensures
        text@ == joined(names_of(names@)),
{
    let ghost row = names_of(names@);
    let mut text = String::new();
    let mut i: usize = 0;
    while i < names.len()
        invariant
            i <= names@.len(),
            row == names_of(names@),
            text@ == joined(row.take(i as int)),
        decreases names@.len() - i,
    {
        proof {
            assert(row.take(i + 1).drop_last() =~= row.take(i as int));
            if i == 0 {
                assert(row.take(1)[0] == names@[0]@);
            }
        }
        if i > 0 {
            text.append(",");
        }
        text.append(names[i].as_str());
        i += 1;
    }
    proof {
        assert(row.take(names@.len() as int) =~= row);
    }
    text
}

} // verus!

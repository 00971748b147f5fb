//! What the dense backend has to hand back.

use vstd::prelude::*;

use crate::error::{unsupported, DenseBackend, DenseError, OperationError};
use crate::index::{extent, extent_fits};
use crate::sector::same_numbers;

verus! {

/// Refuses a shape that is not the expected one.
pub fn validate_dense_shape(actual: &[usize], expected: &[usize]) -> (result: Result<
    (),
    OperationError,
>)
    ensures
        match result {
            Ok(()) => actual@ == expected@,
            Err(OperationError::ShapeMismatch { dst, src }) => {
                &&& actual@ != expected@
                &&& dst@ == expected@
                &&& src@ == actual@
            },
            Err(_) => false,
        },
{
    if !same_numbers(actual, expected) {
        return Err(
            OperationError::ShapeMismatch {
                dst: vstd::slice::slice_to_vec(expected),
                src: vstd::slice::slice_to_vec(actual),
            },
        );
    }
    Ok(())
}

/// The operations whose outputs are counted.
#[derive(Clone, Copy, Debug, PartialEq, Eq, Structural)]
pub enum DenseOperation {
    Qr,
    Svd,
    SvdFull,
    Eigh,
    Eig,
}

/// What an operation is called in a report.
pub open spec fn operation_name(operation: DenseOperation) -> &'static str {
    match operation {
        DenseOperation::Qr => "qr_into",
        DenseOperation::Svd => "svd_into",
        DenseOperation::SvdFull => "svd_full_owned",
        DenseOperation::Eigh => "eigh_into",
        DenseOperation::Eig => "eig",
    }
}

/// How many outputs an operation has.
pub open spec fn outputs_of(operation: DenseOperation) -> int {
    match operation {
        DenseOperation::Svd | DenseOperation::SvdFull => 3,
        DenseOperation::Qr | DenseOperation::Eigh | DenseOperation::Eig => 2,
    }
}

/// What a wrong number of outputs is refused with.
pub open spec fn count_message(operation: DenseOperation) -> &'static str {
    match operation {
        DenseOperation::Qr => "dense QR must return exactly (Q, R)",
        DenseOperation::Svd => "dense SVD must return exactly (U, S, Vt)",
        DenseOperation::SvdFull => "dense full SVD must return exactly (U, S, Vh)",
        DenseOperation::Eigh => "dense EIGH must return exactly (values, vectors)",
        DenseOperation::Eig => "dense eig must return exactly (values, vectors)",
    }
}

/// Whether an error is the backend report of `op` with the message `text`.
pub open spec fn reports(error: OperationError, op: &'static str, text: Seq<char>) -> bool {
    match error {
        OperationError::Dense(DenseError::Backend { backend, op: by, message }) => {
            &&& backend == DenseBackend::Tenferro
            &&& by == op
            &&& message@ == text
        },
        _ => false,
    }
}

/// Refuses an operation that gave another number of outputs than it has; the
/// general eigendecomposition refuses it as a layout, the others as a report
/// of the backend.
pub fn validate_output_count(operation: DenseOperation, found: usize) -> (result: Result<
    (),
    OperationError,
>)
    ensures
        match result {
            Ok(()) => found == outputs_of(operation),
            Err(error) => {
                &&& found != outputs_of(operation)
                &&& if operation == DenseOperation::Eig {
                    error == (OperationError::UnsupportedTensorContractScope {
                        message: count_message(operation),
                    })
                } else {
                    reports(error, operation_name(operation), count_message(operation)@)
                }
            },
        },
{
    let (wanted, op, message): (usize, &'static str, &'static str) = match operation {
        DenseOperation::Qr => (2, "qr_into", "dense QR must return exactly (Q, R)"),
        DenseOperation::Svd => (3, "svd_into", "dense SVD must return exactly (U, S, Vt)"),
        DenseOperation::SvdFull => (
            3,
            "svd_full_owned",
            "dense full SVD must return exactly (U, S, Vh)",
        ),
        DenseOperation::Eigh => (
            2,
            "eigh_into",
            "dense EIGH must return exactly (values, vectors)",
        ),
        DenseOperation::Eig => (2, "eig", "dense eig must return exactly (values, vectors)"),
    };
    if found == wanted {
        return Ok(());
    }
    match operation {
        DenseOperation::Eig => Err(unsupported(message)),
        _ => Err(backend_report(op, message.to_owned())),
    }
}

fn backend_report(op: &'static str, message: String) -> (error: OperationError)
    ensures
        reports(error, op, message@),
{
    OperationError::Dense(DenseError::Backend { backend: DenseBackend::Tenferro, op, message })
}

/// A number in decimal digits.
pub open spec fn decimal(number: nat) -> Seq<char>
    decreases number,
{
    let last = (number % 10) as int;
    let digit = "0123456789"@.subrange(last, last + 1);
    if number < 10 {
        digit
    } else {
        decimal(number / 10) + digit
    }
}

/// Numbers in decimal digits, with a comma and a space between them.
pub open spec fn joined_decimals(numbers: Seq<usize>) -> Seq<char>
    decreases numbers.len(),
{
    if numbers.len() == 0 {
        Seq::empty()
    } else if numbers.len() == 1 {
        decimal(numbers[0] as nat)
    } else {
        joined_decimals(numbers.drop_last()) + ", "@ + decimal(numbers.last() as nat)
    }
}

/// What is said of an output of shape `shape` where `expected` was asked for.
pub open spec fn shape_message(
    op: Seq<char>,
    shape: Seq<usize>,
    expected: Seq<usize>,
) -> Seq<char> {
    op + " output shape mismatch: source ["@ + joined_decimals(shape) + "], destination ["@
        + joined_decimals(expected) + "]"@
}

/// What is said of an output that stores `stored` elements in place of
/// `required`.
pub open spec fn storage_message(op: Seq<char>, stored: nat, required: nat) -> Seq<char> {
    op + " output storage length mismatch: source "@ + decimal(stored) + ", expected "@ + decimal(
        required,
    )
}

fn append_decimal(text: &mut String, number: usize)
    ensures
        final(text)@ == old(text)@ + decimal(number as nat),
    decreases number,
{
    proof {
        reveal_strlit("0123456789");
    }
    if number >= 10 {
        append_decimal(text, number / 10);
    }
    let last: usize = number % 10;
    text.append("0123456789".substring_char(last, last + 1));
    assert(text@ =~= old(text)@ + decimal(number as nat));
}

fn append_decimals(text: &mut String, numbers: &[usize])
    ensures
        final(text)@ == old(text)@ + joined_decimals(numbers@),
{
    let mut taken: usize = 0;
    assert(text@ =~= old(text)@ + joined_decimals(numbers@.take(0)));
    while taken < numbers.len()
        invariant
            taken <= numbers.len(),
            text@ == old(text)@ + joined_decimals(numbers@.take(taken as int)),
        decreases numbers.len() - taken,
    {
        let ghost before = numbers@.take(taken as int);
        let ghost after = numbers@.take(taken + 1);
        proof {
            assert(after.drop_last() =~= before);
            assert(after.last() == numbers@[taken as int]);
        }
        if taken > 0 {
            text.append(", ");
        }
        append_decimal(text, numbers[taken]);
        taken = taken + 1;
        assert(text@ =~= old(text)@ + joined_decimals(after));
    }
    assert(numbers@.take(numbers.len() as int) =~= numbers@);
}

/// Refuses an output in another shape than asked for, or whose storage does
/// not hold as many elements as its shape says.
pub fn validate_owned_output(
    op: &'static str,
    shape: &[usize],
    expected: &[usize],
    stored: usize,
) -> (result: Result<(), OperationError>)
    ensures
        match result {
            Ok(()) => shape@ == expected@ && extent_fits(shape@) && stored == extent(shape@),
            Err(error) => if shape@ != expected@ {
                reports(error, op, shape_message(op@, shape@, expected@))
            } else if !extent_fits(shape@) {
                error == OperationError::Dense(DenseError::ElementCountOverflow)
            } else {
                &&& stored != extent(shape@)
                &&& reports(error, op, storage_message(op@, stored as nat, extent(shape@) as nat))
            },
        },
{
    if !same_numbers(shape, expected) {
        let mut message = op.to_owned();
        message.append(" output shape mismatch: source [");
        append_decimals(&mut message, shape);
        message.append("], destination [");
        append_decimals(&mut message, expected);
        message.append("]");
        return Err(backend_report(op, message));
    }
    match crate::index::checked_extent(shape) {
        None => Err(OperationError::Dense(DenseError::ElementCountOverflow)),
        Some(required) => if stored != required {
            let mut message = op.to_owned();
            message.append(" output storage length mismatch: source ");
            append_decimal(&mut message, stored);
            message.append(", expected ");
            append_decimal(&mut message, required);
            Err(backend_report(op, message))
        } else {
            Ok(())
        },
    }
}

} // verus!

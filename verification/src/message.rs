//! What the errors of this library say.

use crate::book::CodebookError;
use crate::codebook::{BookError, BOOKS};
use crate::lance_abi::{AbiError, ROW_COLUMN, ROW_WIDTH};
use crate::slab::SlabError;
use crate::text::{decimal, hex, push_decimal, push_hex, push_signed, signed_decimal};
use vstd::prelude::*;
use vstd::string::*;

verus! {

/// Numbers, in decimal, behind one another.
pub open spec fn comma_list(b: Seq<u8>) -> Seq<char>
    decreases b.len(),
{
    if b.len() == 0 {
        Seq::empty()
    } else if b.len() == 1 {
        decimal(b[0] as nat)
    } else {
        comma_list(b.drop_last()) + ", "@ + decimal(b.last() as nat)
    }
}

/// Appends numbers, in decimal, behind one another.
fn push_comma_list(out: &mut String, b: &[u8])
    ensures
        final(out)@ == old(out)@ + comma_list(b@),
{
    let n: usize = b.len();
    let mut i: usize = 0;
    assert(b@.take(0) =~= Seq::<u8>::empty());
    assert(out@ =~= old(out)@ + comma_list(b@.take(0)));
    while i < n
        invariant
            i <= n,
            n == b@.len(),
            out@ == old(out)@ + comma_list(b@.take(i as int)),
        decreases n - i,
    {
        proof {
            assert(b@.take(i + 1).drop_last() =~= b@.take(i as int));
            assert(b@.take(i + 1).last() == b@[i as int]);
        }
        if i > 0 {
            out.append(", ");
        }
        push_decimal(out, b[i] as u64);
        assert(out@ =~= old(out)@ + comma_list(b@.take(i + 1)));
        i = i + 1;
    }
    assert(b@.take(n as int) =~= b@);
}

/// The name of a codebook error.
pub open spec fn codebook_error_name(e: CodebookError) -> Seq<char> {
    match e {
        CodebookError::TooLarge => "TooLarge"@,
        CodebookError::Duplicate => "Duplicate"@,
    }
}

/// What a sidecar error says.
pub open spec fn book_error_text(e: BookError) -> Seq<char> {
    match e {
        BookError::Magic(m) => "not a codebook file (magic ["@ + comma_list(m@) + "])"@,
        BookError::BookCount(n) => "expected "@ + decimal(BOOKS as nat) + " books, found "@
            + decimal(n as nat),
        BookError::Utf8 => "a key is not valid UTF-8"@,
        BookError::Truncated => "file ended mid-record"@,
        BookError::Digest { book, recorded, rebuilt } => "book "@ + decimal(book as nat)
            + " digest mismatch: recorded "@ + hex(recorded as nat, 16) + ", rebuilt "@ + hex(
            rebuilt as nat,
            16,
        ) + " — the slab's ordinals do not address this book"@,
        BookError::Codebook(e) => "codebook: "@ + codebook_error_name(e),
        BookError::Rounding(v) => "unknown anchor-rounding rule "@ + decimal(v as nat)
            + " — refused, not defaulted"@,
        BookError::SlabMismatch { field, recorded, actual } => "slab "@ + field@
            + " mismatch: sidecar records "@ + decimal(recorded as nat) + ", slab has "@ + decimal(
            actual as nat,
        ) + " — these two artifacts are not from the same bake"@,
    }
}

impl BookError {
    /// What the error says.
    pub fn message(&self) -> (s: String)
        ensures
            s@ == book_error_text(*self),
    {
        let mut s: String = String::new();
        match self {
            BookError::Magic(m) => {
                s.append("not a codebook file (magic [");
                push_comma_list(&mut s, m.as_slice());
                s.append("])");
            },
            BookError::BookCount(n) => {
                s.append("expected ");
                push_decimal(&mut s, BOOKS as u64);
                s.append(" books, found ");
                push_decimal(&mut s, *n as u64);
            },
            BookError::Utf8 => {
                s.append("a key is not valid UTF-8");
            },
            BookError::Truncated => {
                s.append("file ended mid-record");
            },
            BookError::Digest { book, recorded, rebuilt } => {
                s.append("book ");
                push_decimal(&mut s, *book as u64);
                s.append(" digest mismatch: recorded ");
                push_hex(&mut s, *recorded, 16);
                s.append(", rebuilt ");
                push_hex(&mut s, *rebuilt, 16);
                s.append(" — the slab's ordinals do not address this book");
            },
            BookError::Codebook(e) => {
                s.append("codebook: ");
                match e {
                    CodebookError::TooLarge => {
                        s.append("TooLarge");
                    },
                    CodebookError::Duplicate => {
                        s.append("Duplicate");
                    },
                }
            },
            BookError::Rounding(v) => {
                s.append("unknown anchor-rounding rule ");
                push_decimal(&mut s, *v as u64);
                s.append(" — refused, not defaulted");
            },
            BookError::SlabMismatch { field, recorded, actual } => {
                s.append("slab ");
                s.append(*field);
                s.append(" mismatch: sidecar records ");
                push_decimal(&mut s, *recorded);
                s.append(", slab has ");
                push_decimal(&mut s, *actual);
                s.append(" — these two artifacts are not from the same bake");
            },
        }
        assert(s@ =~= book_error_text(*self));
        s
    }
}

/// How a slab error is written.
pub open spec fn slab_error_text(e: SlabError) -> Seq<char> {
    match e {
        SlabError::NotRowAligned { len } => "NotRowAligned { len: "@ + decimal(len as nat) + " }"@,
        SlabError::Misaligned { align } => "Misaligned { align: "@ + decimal(align as nat) + " }"@,
    }
}

/// What a table error says.
pub open spec fn abi_error_text(e: AbiError) -> Seq<char> {
    match e {
        AbiError::NoRowColumn => "batch has no `"@ + ROW_COLUMN@ + "` column"@,
        AbiError::WrongType { got } => "`"@ + ROW_COLUMN@ + "` is "@ + got@
            + ", not FixedSizeBinary("@ + signed_decimal(ROW_WIDTH as int) + ")"@,
        AbiError::Slab(e) => "buffer is not a valid slab: "@ + slab_error_text(e),
    }
}

impl AbiError {
    /// What the error says.
    pub fn message(&self) -> (s: String)
        ensures
            s@ == abi_error_text(*self),
    {
        let mut s: String = String::new();
        match self {
            AbiError::NoRowColumn => {
                s.append("batch has no `");
                s.append(ROW_COLUMN);
                s.append("` column");
            },
            AbiError::WrongType { got } => {
                s.append("`");
                s.append(ROW_COLUMN);
                s.append("` is ");
                s.append(got.as_str());
                s.append(", not FixedSizeBinary(");
                push_signed(&mut s, ROW_WIDTH as i64);
                s.append(")");
            },
            AbiError::Slab(SlabError::NotRowAligned { len }) => {
                s.append("buffer is not a valid slab: ");
                s.append("NotRowAligned { len: ");
                push_decimal(&mut s, *len as u64);
                s.append(" }");
            },
            AbiError::Slab(SlabError::Misaligned { align }) => {
                s.append("buffer is not a valid slab: ");
                s.append("Misaligned { align: ");
                push_decimal(&mut s, *align as u64);
                s.append(" }");
            },
        }
        assert(s@ =~= abi_error_text(*self));
        s
    }
}

} // verus!

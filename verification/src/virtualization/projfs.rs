//! What the result codes of the Windows Projected File System mean for a mount.

use vstd::prelude::*;

use crate::text::{digits, hex_text, joined, law_digits, value_in};
use crate::virtualization::traits::VirtualizerError;

verus! {

/// The code of success.
pub const S_OK: i32 = 0;

/// The code of a missing privilege.
pub const E_ACCESSDENIED: i32 = -2147024891;

/// A result code in hexadecimal notation, in two's complement.
pub open spec fn code_text(code: i32) -> Seq<char> {
    "0x"@ + digits((if code < 0 { code + 0x1_0000_0000 } else { code as int }) as nat, 16)
}

/// A result code in hexadecimal notation, in two's complement.
pub fn code_in_hex(code: i32) -> (text: String)
    ensures
        text@ == code_text(code),
{
    let number: u64 = if code < 0 {
        (code as i64 + 0x1_0000_0000) as u64
    } else {
        code as u64
    };
    joined("0x", &hex_text(number))
}

/// Whether the root can be virtualized after it was marked as a placeholder
/// with this result. A missing privilege shows later.
pub fn marked(code: i32) -> (result: Result<(), VirtualizerError>)
    ensures
        match result {
            Ok(_) => (code == S_OK || code == E_ACCESSDENIED) && (code == 0 || code == -2147024891),
            Err(error) => code != S_OK && code != E_ACCESSDENIED && code != 0 && code != -2147024891
                && error.is_fault("PrjMarkDirectoryAsPlaceholder failed: "@ + code_text(code)),
        },
{
    if code == S_OK || code == E_ACCESSDENIED {
        Ok(())
    } else {
        Err(
            VirtualizerError::SystemFault(
                joined("PrjMarkDirectoryAsPlaceholder failed: ", &code_in_hex(code)),
            ),
        )
    }
}

/// Whether a virtualization instance was started with this result.
pub fn started(code: i32) -> (result: Result<(), VirtualizerError>)
    ensures
        match result {
            Ok(_) => code == S_OK && code == 0,
            Err(error) => code != S_OK && if code == E_ACCESSDENIED {
                error is AccessDenied
            } else {
                error.is_fault("PrjStartVirtualizing failed: "@ + code_text(code))
            },
        },
        result is Ok <==> code == 0,
        (result matches Err(error) && error is AccessDenied) <==> code == -2147024891,
{
    if code == S_OK {
        Ok(())
    } else if code == E_ACCESSDENIED {
        Err(VirtualizerError::AccessDenied)
    } else {
        Err(
            VirtualizerError::SystemFault(
                joined("PrjStartVirtualizing failed: ", &code_in_hex(code)),
            ),
        )
    }
}

/// What a mount through the projected file system comes to. An instance that
/// was started is stopped again, so that the copy-on-write engine owns the
/// workspace; a missing privilege leaves it to that engine too.
pub fn mount_with_projfs(started: Result<(), VirtualizerError>) -> (result: Result<
    (),
    VirtualizerError,
>)
    ensures
        result == match started {
            Ok(_) => Err::<(), VirtualizerError>(VirtualizerError::AccessDenied),
            Err(error) => Err::<(), VirtualizerError>(error),
        },
{
    match started {
        Ok(_) => Err(VirtualizerError::AccessDenied),
        Err(error) => Err(error),
    }
}

/// Whether the copy-on-write engine mounts the workspace after the projected
/// file system was tried: if that lacked a privilege. Other results stand.
pub fn falls_back(tried: &Result<(), VirtualizerError>) -> (result: bool)
    ensures
        result == (tried matches Err(error) && error is AccessDenied),
{
    match tried {
        Err(VirtualizerError::AccessDenied) => true,
        _ => false,
    }
}

/// A code is written in hexadecimal notation and can be read back: a negative one
/// as the number that has the same thirty-two bits.
pub proof fn law_code_text(code: i32)
    ensures
        ({
            let text = code_text(code);
            &&& text.len() > 2 && text[0] == '0' && text[1] == 'x'
            &&& code >= 0 ==> value_in(text.skip(2), 16) == code
            &&& code < 0 ==> value_in(text.skip(2), 16) == code + 0x1_0000_0000
        }),
{
    reveal_strlit("0x");
    let number = (if code < 0 {
        code + 0x1_0000_0000
    } else {
        code as int
    }) as nat;
    law_digits(number, 16);
    assert(code_text(code).skip(2) =~= digits(number, 16));
}

} // verus!

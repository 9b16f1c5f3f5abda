//! Pausing the terminal between passes.
//!
//! The session pauses until the user presses a key; the three wrappers
//! below carry the standard-stream calls, and nothing is promised of
//! their effects.

use vstd::prelude::*;

verus! {

/// Relies on std::io::Write::write on the standard output; reports
/// whether the write succeeded.
#[verifier::external_body]
fn write_stdout(msg: &str) -> (ok: bool)
{
    std::io::Write::write(&mut std::io::stdout(), msg.as_bytes()).is_ok()
}

/// Relies on std::io::Write::flush on the standard output; reports
/// whether the flush succeeded.
#[verifier::external_body]
fn flush_stdout() -> (ok: bool)
{
    std::io::Write::flush(&mut std::io::stdout()).is_ok()
}

/// Relies on std::io::Read::read on the standard input: blocks until
/// input arrives; reports whether the read succeeded.
#[verifier::external_body]
fn read_byte_stdin() -> (ok: bool)
{
    std::io::Read::read(&mut std::io::stdin(), &mut [0u8]).is_ok()
}

/// Prints the message and waits for a key press.  An I/O failure on
/// either stream is reported to the caller.
pub fn pause_with_message(msg: &str) -> (r: Result<(), ()>)
{
    if !write_stdout(msg) {
        return Result::Err(());
    }
    if !flush_stdout() {
        return Result::Err(());
    }
    if !read_byte_stdin() {
        return Result::Err(());
    }
    Result::Ok(())
}

/// Waits for a key press under the usual prompt.
pub fn pause() -> (r: Result<(), ()>)
{
    pause_with_message("Press any key to continue...")
}

} // verus!

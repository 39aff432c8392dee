//! A buffer's outstanding writes, as a descriptor the kernel can wait on.
//!
//! A display engine reads a buffer at the vertical blank after the commit that named it, and the
//! frame a graphics device draws into that buffer can still be unfinished then. Something has to
//! wait for it, and the kernel does when a plane is given a fence.
//!
//! A buffer carries the fences of everything writing it, whichever driver that is, and hands them
//! over as one descriptor. So it works where the graphics driver exports nothing, and it covers a
//! buffer more than one device writes. The writing has to have been submitted; it need not have
//! run.

use vstd::prelude::*;

verus! {

/// The fence covers everything **writing** the buffer, which is what a reader waits for.
///
/// The other bit asks for the readers too, and a display engine is a reader itself — a frame that
/// waited for the last flip to be read would wait a whole refresh interval for nothing.
pub const READ: u32 = 1;

/// What the kernel is asked, and the descriptor it answers with.
#[derive(Clone, Copy, Debug, PartialEq, Eq, Structural)]
pub struct ExportSyncFile {
    /// Which accesses the answer has to cover. [`READ`] here and nothing else.
    pub flags: u32,
    /// Where the kernel writes the descriptor.
    pub fd: i32,
}

/// What asking a buffer for its writers came to.
#[derive(Clone, Copy, Debug, PartialEq, Eq, Structural)]
pub enum Writers {
    /// A descriptor that signals when everything now writing has finished. It is the caller's own.
    Descriptor(i32),
    /// The kernel does not serve the request: it is too old for it, or the descriptor is not a
    /// buffer's. The caller then waits for the graphics device itself.
    Unserved,
    /// The kernel refused for another reason, by its number.
    Refused(i32),
}

/// The number the kernel gives a request a descriptor does not serve.
pub const NOT_SERVED: i32 = 25;

/// Reads `rustix::io::Errno::NOTTY`, the number of a request a descriptor does not serve.
#[verifier::external_body]
fn not_served() -> (r: i32)
    ensures
        r == NOT_SERVED,
{
    rustix::io::Errno::NOTTY.raw_os_error()
}

/// What a buffer is asked for its writers.
pub fn request() -> (r: ExportSyncFile)
    ensures
        r.flags == READ,
        r.fd == -1,
{
    ExportSyncFile { flags: READ, fd: -1 }
}

/// What asking a buffer for everything now writing it came to, once the kernel answered `outcome`
/// and left `request` behind.
pub fn writers_of(outcome: Result<(), i32>, request: ExportSyncFile) -> (r: Writers)
    ensures
        r == (match outcome {
            Ok(_) => if request.fd < 0 {
                Writers::Unserved
            } else {
                Writers::Descriptor(request.fd)
            },
            Err(number) => if number == NOT_SERVED {
                Writers::Unserved
            } else {
                Writers::Refused(number)
            },
        }),
{
    match outcome {
        Ok(_) => {},
        // What a kernel answers for a request the descriptor does not serve, which is a kernel that
        // is too old and anything that is not a buffer.
        Err(number) => {
            return if number == not_served() {
                Writers::Unserved
            } else {
                Writers::Refused(number)
            };
        },
    }
    if request.fd < 0 {
        return Writers::Unserved;
    }
    Writers::Descriptor(request.fd)
}

} // verus!
